//! Token scanners, flat geometry, the token tree, and navigation.
use vstd::prelude::*;

pub mod cbor_scan;
pub mod json_scan;
pub mod yaml_scan;
pub mod yaml_text;
pub mod tree;
pub mod nav;
pub mod index;
pub mod decode;
pub mod sha;

pub use self::tree::{flat_of, tree_of, FlatView, RowNode};
pub use self::cbor_scan::cbor_tokens;
pub use self::decode::Value;
pub use self::index::ConfixIndex;
pub use self::nav::{confix_doc, confix_doc_text, scan, ConfixDoc, PathStep};
pub use self::sha::content_id;
pub use self::json_scan::json_tokens;
pub use self::yaml_scan::{yaml_scannable, yaml_tokens};

verus! {

/// Type discriminant of a token.
#[derive(Clone, Copy, Debug, PartialEq, Eq, Hash, Structural)]
pub enum IoMemento {
    IoBoolean,
    IoInt,
    IoLong,
    IoDouble,
    IoString,
    IoNothing,
    IoBytes,
    IoArray,
    IoObject,
}

/// Source dialects.
#[derive(Clone, Copy, Debug, PartialEq, Eq, Hash, Structural)]
pub enum Syntax {
    Json,
    Cbor,
    Yaml,
}

/// One token: an inclusive byte span `open..=close`, its tag and its child tokens.
#[derive(Debug)]
pub struct RowVec {
    pub open: usize,
    pub close: usize,
    pub tag: IoMemento,
    pub kids: Vec<RowVec>,
}

/// Flat parse geometry: spans, tags and nesting depths, one entry per token, in source order.
#[derive(Clone, Debug)]
pub struct FlatIndex {
    pub spans: Vec<(usize, usize)>,
    pub tags: Vec<IoMemento>,
    pub depths: Vec<usize>,
}

/// The token tree: the root rows of a document.
pub type TreeCursor = Vec<RowVec>;

/// A scan: the token tree together with its flat geometry.
pub struct Scan0Result {
    pub tree: TreeCursor,
    pub flat: FlatIndex,
}

/// A scanned token before the flat index is built: `(open, close, tag)`.
pub type Tok = (usize, usize, IoMemento);

impl View for FlatIndex {
    type V = FlatView;

    open spec fn view(&self) -> FlatView {
        FlatView { spans: self.spans@, tags: self.tags@, depths: self.depths@ }
    }
}

impl View for RowVec {
    type V = RowNode;

    open spec fn view(&self) -> RowNode {
        self.node()
    }
}

impl RowVec {
    /// The abstract tree node of this row.
    pub open spec fn node(&self) -> RowNode
        decreases self,
    {
        RowNode {
            open: self.open,
            close: self.close,
            tag: self.tag,
            kids: Seq::new(
                self.kids@.len(),
                |i: int|
                    if 0 <= i < self.kids@.len() {
                        self.kids@[i].node()
                    } else {
                        RowNode { open: 0, close: 0, tag: IoMemento::IoNothing, kids: seq![] }
                    },
            ),
        }
    }
}

impl RowVec {
    /// A deep copy of this row.
    pub fn deep_clone(&self) -> (r: RowVec)
        ensures
            r@ == self@,
        decreases self,
    {
        let mut kids: Vec<RowVec> = Vec::new();
        let mut j: usize = 0;
        while j < self.kids.len()
            invariant
                j <= self.kids@.len(),
                kids@.len() == j,
                forall|q: int| 0 <= q < j ==> #[trigger] kids@[q]@ == self.kids@[q]@,
            decreases self.kids@.len() - j,
        {
            let k = self.kids[j].deep_clone();
            kids.push(k);
            j = j + 1;
        }
        let r = RowVec { open: self.open, close: self.close, tag: self.tag, kids };
        proof {
            let a = r.node();
            let b = self.node();
            assert(a.kids.len() == b.kids.len());
            assert forall|q: int| 0 <= q < a.kids.len() implies a.kids[q] == b.kids[q] by {
                assert(a.kids[q] == r.kids@[q].node());
                assert(b.kids[q] == self.kids@[q].node());
                assert(kids@[q]@ == self.kids@[q]@);
            }
            assert(a.kids =~= b.kids);
        }
        r
    }
}

impl Clone for RowVec {
    fn clone(&self) -> (r: RowVec)
        ensures
            r@ == self@,
    {
        self.deep_clone()
    }
}

/// The models of a sequence of rows.
pub open spec fn rows_view(rows: Seq<RowVec>) -> Seq<RowNode> {
    rows.map_values(|r: RowVec| r@)
}

/// Which first bytes a dialect can begin with.
pub open spec fn recognizes(syntax: Syntax, first: u8) -> bool {
    match syntax {
        Syntax::Json => first == 0x7b || first == 0x5b || first == 0x22,
        Syntax::Cbor => true,
        Syntax::Yaml => !(first == 0x7b || first == 0x5b),
    }
}

impl Syntax {
    /// Can this dialect begin with byte `first`?
    pub fn recognize(self, first: u8) -> (r: bool)
        ensures
            r == recognizes(self, first),
    {
        match self {
            Syntax::Json => first == 0x7b || first == 0x5b || first == 0x22,
            Syntax::Cbor => true,
            Syntax::Yaml => !(first == 0x7b || first == 0x5b),
        }
    }

    /// Scan `src` as JSON. Lenient: never fails; it indexes whatever structure it can see
    /// and closes unclosed containers at the end of the source.
    pub fn scan0(self, src: &[u8]) -> (r: Scan0Result)
        ensures
            r.flat@ == flat_of(json_tokens(src@)),
            rows_view(r.tree@) == tree_of(flat_of(json_tokens(src@))),
    {
        let toks = self::json_scan::json_token_list(src);
        self::tree::finish(&toks)
    }

    /// Scan `src` as a sequence of CBOR data items. The source must scan without reading
    /// past its end or meeting a reserved additional-information value in an item head.
    pub fn scan_cbor0(self, src: &[u8]) -> (r: Scan0Result)
        requires
            cbor_tokens(src@) is Some,
        ensures
            r.flat@ == flat_of(cbor_tokens(src@).unwrap()),
            rows_view(r.tree@) == tree_of(flat_of(cbor_tokens(src@).unwrap())),
    {
        let toks = self::cbor_scan::cbor_token_list(src).unwrap();
        self::tree::finish(&toks)
    }

    /// Scan `src` as YAML. A document whose first non-blank byte is `{` or `[` is scanned
    /// as JSON; any other goes through the indentation-aware line walk.
    pub fn scan_yaml0(self, src: &[u8]) -> (r: Scan0Result)
        requires
            yaml_scannable(src@),
        ensures
            r.flat@ == flat_of(yaml_tokens(src@)),
            rows_view(r.tree@) == tree_of(flat_of(yaml_tokens(src@))),
    {
        if self::yaml_scan::yaml_flow_exec(src) {
            let toks = self::json_scan::json_token_list(src);
            self::tree::finish(&toks)
        } else {
            let toks = self::yaml_scan::yaml_walk_tokens(src);
            self::tree::finish(&toks)
        }
    }

    /// Strip a matched outer quote pair from the window `open..=close`; any other
    /// window passes through.
    pub fn decode_text(src: &[u8], open: usize, close: usize) -> (r: (usize, usize))
        requires
            open < src@.len(),
            close < src@.len(),
        ensures
            r == (if src@[open as int] == 0x22 && src@[close as int] == 0x22 && close > open + 1 {
                ((open + 1) as usize, (close - 1) as usize)
            } else {
                (open, close)
            }),
    {
        let first = src[open];
        let last = src[close];
        if first == 0x22 && last == 0x22 && close > open + 1 {
            (open + 1, close - 1)
        } else {
            (open, close)
        }
    }
}

} // verus!
