//! Documents, and navigation through the token tree by keys and positions.
use vstd::prelude::*;

use super::decode::{byte_or, reifiable, reify_of, Value};
use super::index::{copy_bytes, index_of, indexable, ConfixIndex};
use super::tree::{node_of, tree_of, RowNode};
use super::{rows_view, IoMemento, RowVec, Syntax};

verus! {

/// One navigation step: an object key, or a child position.
#[derive(Clone, Debug, PartialEq)]
pub enum PathStep {
    Key(String),
    Index(usize),
}

/// The model of a step.
pub enum StepView {
    Key(Seq<char>),
    Index(usize),
}

impl View for PathStep {
    type V = StepView;

    open spec fn view(&self) -> StepView {
        match self {
            PathStep::Key(k) => StepView::Key(k@),
            PathStep::Index(i) => StepView::Index(*i),
        }
    }
}

/// The models of a sequence of steps.
pub open spec fn steps_view(path: Seq<PathStep>) -> Seq<StepView> {
    path.map_values(|s: PathStep| s@)
}

/// Key row `k` spells `key`: a string token whose bytes between its first and last byte
/// are exactly `key` (a byte past the end of the source reads as `0`).
pub open spec fn key_matches(k: RowNode, key: Seq<u8>, src: Seq<u8>) -> bool {
    let ko = k.open + 1;
    let kc = k.close - 1;
    &&& k.tag == IoMemento::IoString
    &&& k.close >= 1
    &&& kc >= ko
    &&& kc - ko + 1 == key.len()
    &&& forall|d: int| 0 <= d < key.len() ==> byte_or(src, ko + d, 0) == #[trigger] key[d]
}

/// Among the child pairs `(kids[i], kids[i+1])`, `(kids[i+2], kids[i+3])`, ..., the position
/// of the value of the first pair whose key spells `key`.
pub open spec fn key_pair_from(kids: Seq<RowNode>, key: Seq<u8>, src: Seq<u8>, i: int) -> Option<int>
    decreases kids.len() - i,
{
    if i < 0 || i + 1 >= kids.len() {
        None
    } else if key_matches(kids[i], key, src) {
        Some(i + 1)
    } else {
        key_pair_from(kids, key, src, i + 2)
    }
}

/// The bytes of a token strictly between its first and last byte (a byte past the end of
/// the source reads as `0`): the text of a key between its quotes.
pub open spec fn inner_text(k: RowNode, src: Seq<u8>) -> Seq<u8> {
    let n: int = if k.close >= k.open + 1 {
        k.close - k.open - 1
    } else {
        0
    };
    Seq::new(n as nat, |d: int| byte_or(src, k.open + 1 + d, 0))
}

proof fn lemma_key_pair_from_exact(kids: Seq<RowNode>, key: Seq<u8>, src: Seq<u8>, i: int)
    requires
        0 <= i,
    ensures
        key_pair_from(kids, key, src, i) matches Some(j) ==> {
            &&& i + 1 <= j < kids.len()
            &&& (j - i) % 2 == 1
            &&& kids[j - 1].tag == IoMemento::IoString
            &&& inner_text(kids[j - 1], src) == key
            &&& key.len() >= 1
        },
    decreases kids.len() - i,
{
    if i + 1 < kids.len() {
        if key_matches(kids[i], key, src) {
            assert(inner_text(kids[i], src) =~= key);
        } else {
            lemma_key_pair_from_exact(kids, key, src, i + 2);
        }
    }
}

/// A key step selects only a value whose key is exactly the key: the string token before
/// it, at an even position among the children, holds between its quotes the key's UTF-8
/// bytes and nothing more (so a key that merely begins with the step's key is passed
/// over, and an empty key selects nothing).
pub proof fn lemma_key_step_exact(node: RowNode, key: Seq<char>, src: Seq<u8>)
    ensures
        step_of(node, StepView::Key(key), src) matches Some(v) ==> exists|j: int|
            {
                &&& 1 <= j < node.kids.len()
                &&& j % 2 == 1
                &&& node.kids[j] == v
                &&& node.kids[j - 1].tag == IoMemento::IoString
                &&& #[trigger] inner_text(node.kids[j - 1], src) == vstd::utf8::encode_utf8(key)
                &&& inner_text(node.kids[j - 1], src).len() >= 1
            },
{
    let kb = vstd::utf8::encode_utf8(key);
    lemma_key_pair_from_exact(node.kids, kb, src, 0);
    if let Some(j) = key_pair_from(node.kids, kb, src, 0) {
        assert(node.kids[j] == step_of(node, StepView::Key(key), src).unwrap());
    }
}

/// Key token `k` holds exactly the non-empty bytes `key` between its quotes.
pub open spec fn spells(k: RowNode, key: Seq<u8>, src: Seq<u8>) -> bool {
    &&& k.tag == IoMemento::IoString
    &&& key.len() >= 1
    &&& inner_text(k, src) == key
}

proof fn lemma_key_matches_spells(k: RowNode, key: Seq<u8>, src: Seq<u8>)
    ensures
        key_matches(k, key, src) <==> spells(k, key, src),
{
    if spells(k, key, src) {
        assert(inner_text(k, src).len() == key.len());
        assert forall|d: int| 0 <= d < key.len() implies byte_or(src, k.open + 1 + d, 0) == #[trigger] key[d] by {
            assert(inner_text(k, src)[d] == key[d]);
        }
    }
    if key_matches(k, key, src) {
        assert(inner_text(k, src) =~= key);
    }
}

proof fn lemma_key_pair_from_first(kids: Seq<RowNode>, key: Seq<u8>, src: Seq<u8>, from: int, i: int)
    requires
        0 <= from <= i,
        (i - from) % 2 == 0,
        i + 1 < kids.len(),
        spells(kids[i], key, src),
        forall|m: int| from <= m < i && (m - from) % 2 == 0 ==> !spells(#[trigger] kids[m], key, src),
    ensures
        key_pair_from(kids, key, src, from) == Some(i + 1),
    decreases i - from,
{
    lemma_key_matches_spells(kids[from], key, src);
    if from < i {
        assert(!spells(kids[from], key, src));
        lemma_key_pair_from_first(kids, key, src, from + 2, i);
    }
}

/// A key step selects the value of the first child pair, counting from the first child,
/// whose key token holds exactly the key's UTF-8 bytes between its quotes.
pub proof fn lemma_key_step_first(node: RowNode, key: Seq<char>, src: Seq<u8>, i: int)
    requires
        0 <= i,
        i % 2 == 0,
        i + 1 < node.kids.len(),
        spells(node.kids[i], vstd::utf8::encode_utf8(key), src),
        forall|m: int|
            0 <= m < i && m % 2 == 0 ==> !spells(#[trigger] node.kids[m], vstd::utf8::encode_utf8(key), src),
    ensures
        step_of(node, StepView::Key(key), src) == Some(node.kids[i + 1]),
{
    lemma_key_pair_from_first(node.kids, vstd::utf8::encode_utf8(key), src, 0, i);
}

/// One step from `node`: by key, the value of the first child pair whose key spells the key's
/// UTF-8 bytes; by position, that child.
pub open spec fn step_of(node: RowNode, step: StepView, src: Seq<u8>) -> Option<RowNode> {
    match step {
        StepView::Key(k) => match key_pair_from(node.kids, vstd::utf8::encode_utf8(k), src, 0) {
            Some(j) => Some(node.kids[j]),
            None => None,
        },
        StepView::Index(i) => if i < node.kids.len() {
            Some(node.kids[i as int])
        } else {
            None
        },
    }
}

/// The row reached from `node` along `path`; `None` at the first step that fails.
pub open spec fn get_at_of(node: RowNode, path: Seq<StepView>, src: Seq<u8>) -> Option<RowNode>
    decreases path.len(),
{
    if path.len() == 0 {
        Some(node)
    } else {
        match step_of(node, path[0], src) {
            Some(n) => get_at_of(n, path.drop_first(), src),
            None => None,
        }
    }
}

/// Following `p + q` is following `p`, then `q` from where `p` led.
pub proof fn lemma_get_at_concat(node: RowNode, p: Seq<StepView>, q: Seq<StepView>, src: Seq<u8>)
    ensures
        get_at_of(node, p + q, src) == match get_at_of(node, p, src) {
            Some(m) => get_at_of(m, q, src),
            None => None,
        },
    decreases p.len(),
{
    if p.len() > 0 {
        assert((p + q)[0] == p[0]);
        assert((p + q).drop_first() =~= p.drop_first() + q);
        match step_of(node, p[0], src) {
            Some(n) => lemma_get_at_concat(n, p.drop_first(), q, src),
            None => {},
        }
    } else {
        assert(p + q =~= q);
    }
}

/// The empty path leads to where it starts.
pub proof fn lemma_get_at_empty(node: RowNode, src: Seq<u8>)
    ensures
        get_at_of(node, seq![], src) == Some(node),
{
}

impl RowVec {
    /// The child rows.
    pub fn kids(&self) -> (r: &[RowVec])
        ensures
            rows_view(r@) == self@.kids,
    {
        proof {
            assert(rows_view(self.kids@) =~= self@.kids);
        }
        self.kids.as_slice()
    }

    /// The token tag.
    pub fn tag(&self) -> (r: IoMemento)
        ensures
            r == self.tag,
    {
        self.tag
    }

    /// The value of the first child pair whose key spells `key` (see `step_of`).
    pub fn step_key<'a>(&'a self, key: &str, src: &'a [u8]) -> (r: Option<&'a RowVec>)
        ensures
            match step_of(self@, StepView::Key(key@), src@) {
                Some(n) => r matches Some(v) && v@ == n,
                None => r is None,
            },
    {
        let kb = key.as_bytes();
        assert(kb@ == vstd::utf8::encode_utf8(key@));
        let ghost kids = self@.kids;
        let n = self.kids.len();
        let m = kb.len();
        let ns = src.len();
        let mut i: usize = 0;
        while i + 1 < n
            invariant
                n == self.kids@.len(),
                n == kids.len(),
                m == kb@.len(),
                ns == src@.len(),
                kids == self@.kids,
                kb@ == vstd::utf8::encode_utf8(key@),
                i % 2 == 0,
                key_pair_from(kids, kb@, src@, i as int) == key_pair_from(kids, kb@, src@, 0),
            decreases n - i,
        {
            let k = &self.kids[i];
            proof {
                assert(kids[i as int] == k@);
            }
            let mut matched = false;
            if k.tag == IoMemento::IoString && k.close >= 1 && k.open < usize::MAX && k.close - 1
                >= k.open + 1 {
                let ko = k.open + 1;
                let kc = k.close - 1;
                if kc - ko + 1 == m {
                    matched = true;
                    let mut d: usize = 0;
                    while d < m
                        invariant
                            d <= m,
                            m == kb@.len(),
                            ns == src@.len(),
                            ko == k.open + 1,
                            matched ==> forall|e: int| 0 <= e < d ==> byte_or(src@, ko + e, 0) == #[trigger] kb@[e],
                            !matched ==> exists|e: int| 0 <= e < m && byte_or(src@, ko + e, 0) != #[trigger] kb@[e],
                        decreases m - d,
                    {
                        let b = if d < ns && ko < ns - d {
                            src[ko + d]
                        } else {
                            0
                        };
                        proof {
                            assert(b == byte_or(src@, ko + d, 0));
                        }
                        if b != kb[d] {
                            matched = false;
                        }
                        d = d + 1;
                    }
                }
            }
            proof {
                assert(matched == key_matches(k@, kb@, src@));
            }
            if matched {
                proof {
                    assert(self@.kids[i + 1] == self.kids@[i + 1]@);
                    assert(key_pair_from(kids, kb@, src@, i as int) == Some(i + 1));
                }
                return Some(&self.kids[i + 1]);
            }
            i = i + 2;
        }
        None
    }

    /// Child `array_idx`.
    pub fn step_index(&self, array_idx: usize) -> (r: Option<&RowVec>)
        ensures
            match step_of(self@, StepView::Index(array_idx), seq![]) {
                Some(n) => r matches Some(v) && v@ == n,
                None => r is None,
            },
    {
        if array_idx < self.kids.len() {
            Some(&self.kids[array_idx])
        } else {
            None
        }
    }

    /// The row reached along `path` (see `get_at_of`).
    pub fn get_at<'a>(&'a self, path: &[PathStep], src: &'a [u8]) -> (r: Option<&'a RowVec>)
        ensures
            match get_at_of(self@, steps_view(path@), src@) {
                Some(n) => r matches Some(v) && v@ == n,
                None => r is None,
            },
    {
        let ghost whole = steps_view(path@);
        let mut cur: &RowVec = self;
        let n = path.len();
        let mut i: usize = 0;
        assert(whole.skip(0) =~= whole);
        while i < n
            invariant
                i <= n,
                n == path@.len(),
                whole == steps_view(path@),
                get_at_of(self@, whole, src@) == get_at_of(cur@, whole.skip(i as int), src@),
            decreases n - i,
        {
            let ghost rest = whole.skip(i as int);
            assert(rest[0] == path@[i as int]@);
            assert(rest.drop_first() =~= whole.skip(i + 1));
            let next = match &path[i] {
                PathStep::Key(k) => cur.step_key(k.as_str(), src),
                PathStep::Index(j) => cur.step_index(*j),
            };
            match next {
                Some(nx) => {
                    cur = nx;
                },
                None => {
                    return None;
                },
            }
            i = i + 1;
        }
        assert(whole.skip(n as int) =~= Seq::<StepView>::empty());
        Some(cur)
    }
}

/// What `char::is_whitespace` tests: the Unicode `White_Space` property.
pub open spec fn is_white_space(c: char) -> bool {
    ||| '\t' <= c <= '\r'
    ||| c == ' '
    ||| c == '\u{85}'
    ||| c == '\u{a0}'
    ||| c == '\u{1680}'
    ||| '\u{2000}' <= c <= '\u{200a}'
    ||| c == '\u{2028}'
    ||| c == '\u{2029}'
    ||| c == '\u{202f}'
    ||| c == '\u{205f}'
    ||| c == '\u{3000}'
}

/// The first character from `i` on that is not white space.
pub open spec fn first_non_white(text: Seq<char>, i: int) -> Option<char>
    decreases text.len() - i,
{
    if i < 0 || i >= text.len() {
        None
    } else if is_white_space(text[i]) {
        first_non_white(text, i + 1)
    } else {
        Some(text[i])
    }
}

/// The dialect a text is read as: JSON where its first non-blank character is `{`, `[` or
/// `"`, YAML otherwise.
pub open spec fn text_syntax(text: Seq<char>) -> Syntax {
    match first_non_white(text, 0) {
        Some(c) => if c == '{' || c == '[' || c == '"' {
            Syntax::Json
        } else {
            Syntax::Yaml
        },
        None => Syntax::Yaml,
    }
}

pub(crate) fn is_white_space_exec(c: char) -> (r: bool)
    ensures
        r == is_white_space(c),
{
    ('\t' <= c && c <= '\r') || c == ' ' || c == '\u{85}' || c == '\u{a0}' || c == '\u{1680}' || (
    '\u{2000}' <= c && c <= '\u{200a}') || c == '\u{2028}' || c == '\u{2029}' || c == '\u{202f}'
        || c == '\u{205f}' || c == '\u{3000}'
}

/// The dialect a text is read as (see `text_syntax`).
pub fn text_syntax_of(text: &str) -> (r: Syntax)
    ensures
        r == text_syntax(text@),
{
    let mut found: Option<char> = None;
    proof {
        broadcast use vstd::string::axiom_spec_iter;
    }
    for c in it: text.chars()
        invariant
            it.seq() == text@,
            found is None ==> first_non_white(text@, 0) == first_non_white(text@, it.index() as int),
            found matches Some(x) ==> first_non_white(text@, 0) == Some(x),
    {
        if found.is_none() && !is_white_space_exec(c) {
            found = Some(c);
        }
    }
    match found {
        Some(c) => if c == '{' || c == '[' || c == '"' {
            Syntax::Json
        } else {
            Syntax::Yaml
        },
        None => Syntax::Yaml,
    }
}

/// A parsed document: its index and its source bytes.
pub struct ConfixDoc {
    pub index: ConfixIndex,
    pub src: Vec<u8>,
}

/// The row `path` leads to from the first root of `roots`.
pub open spec fn doc_get_at(roots: Seq<RowNode>, path: Seq<StepView>, src: Seq<u8>) -> Option<RowNode> {
    if roots.len() == 0 {
        None
    } else {
        get_at_of(roots[0], path, src)
    }
}

/// Index `bytes` as `syntax`, keeping the bytes beside the index.
pub fn confix_doc(bytes: &[u8], syntax: Syntax) -> (r: ConfixDoc)
    requires
        indexable(syntax, bytes@),
    ensures
        r.index@ == index_of(syntax, bytes@),
        r.src@ == bytes@,
{
    let index = syntax.scan_index(bytes);
    let src = copy_bytes(bytes);
    ConfixDoc { index, src }
}

/// Index a text as JSON or YAML, by its first non-blank character (see `text_syntax`).
pub fn confix_doc_text(text: &str) -> (r: ConfixDoc)
    requires
        indexable(text_syntax(text@), vstd::utf8::encode_utf8(text@)),
    ensures
        r.index@ == index_of(text_syntax(text@), vstd::utf8::encode_utf8(text@)),
        r.src@ == vstd::utf8::encode_utf8(text@),
{
    let syntax = text_syntax_of(text);
    confix_doc(text.as_bytes(), syntax)
}

/// Index `bytes` as `syntax`.
pub fn scan(bytes: &[u8], syntax: Syntax) -> (r: ConfixIndex)
    requires
        indexable(syntax, bytes@),
    ensures
        r@ == index_of(syntax, bytes@),
{
    syntax.scan_index(bytes)
}

impl ConfixDoc {
    /// The source bytes.
    pub fn src(&self) -> (r: &[u8])
        ensures
            r@ == self.src@,
    {
        self.src.as_slice()
    }

    /// The root rows of the token tree.
    pub fn roots(&self) -> (r: &[RowVec])
        ensures
            rows_view(r@) == tree_of(self.index@.flat),
    {
        self.index.tree()
    }

    /// The first root row.
    pub fn root(&self) -> (r: Option<&RowVec>)
        ensures
            match r {
                Some(v) => tree_of(self.index@.flat).len() > 0 && v@ == tree_of(self.index@.flat)[0],
                None => tree_of(self.index@.flat).len() == 0,
            },
    {
        let roots = self.roots();
        if roots.len() > 0 {
            proof {
                assert(rows_view(roots@)[0] == roots@[0]@);
            }
            Some(&roots[0])
        } else {
            None
        }
    }

    /// The row `path` leads to from the first root.
    pub fn get_at(&self, path: &[PathStep]) -> (r: Option<&RowVec>)
        ensures
            match doc_get_at(tree_of(self.index@.flat), steps_view(path@), self.src@) {
                Some(n) => r matches Some(v) && v@ == n,
                None => r is None,
            },
    {
        match self.root() {
            Some(r) => r.get_at(path, self.src.as_slice()),
            None => None,
        }
    }

    /// The value of the row `path` leads to.
    pub fn scalar(&self, path: &[PathStep]) -> (r: Option<Value>)
        requires
            doc_get_at(tree_of(self.index@.flat), steps_view(path@), self.src@) matches Some(n)
                ==> reifiable(n, self.src@),
        ensures
            match doc_get_at(tree_of(self.index@.flat), steps_view(path@), self.src@) {
                Some(n) => r matches Some(v) && v@ == reify_of(n, self.src@),
                None => r is None,
            },
    {
        match self.get_at(path) {
            Some(row) => Some(row.reify(self.src.as_slice())),
            None => None,
        }
    }

    /// The value of the row `path` leads to (the same as `scalar`).
    pub fn value(&self, path: &[PathStep]) -> (r: Option<Value>)
        requires
            doc_get_at(tree_of(self.index@.flat), steps_view(path@), self.src@) matches Some(n)
                ==> reifiable(n, self.src@),
        ensures
            match doc_get_at(tree_of(self.index@.flat), steps_view(path@), self.src@) {
                Some(n) => r matches Some(v) && v@ == reify_of(n, self.src@),
                None => r is None,
            },
    {
        self.scalar(path)
    }

    /// The value of flat token `token_idx`, with its subtree, decoded against the
    /// index's source; `None` past the last token.
    pub fn reify_token(&self, token_idx: usize) -> (r: Option<Value>)
        requires
            token_idx < self.index@.flat.spans.len() ==> reifiable(
                node_of(self.index@.flat, token_idx as int),
                self.index@.src,
            ),
        ensures
            match r {
                Some(v) => token_idx < self.index@.flat.spans.len() && v@ == reify_of(
                    node_of(self.index@.flat, token_idx as int),
                    self.index@.src,
                ),
                None => token_idx >= self.index@.flat.spans.len(),
            },
    {
        self.index.reify_token(token_idx)
    }
}

} // verus!
