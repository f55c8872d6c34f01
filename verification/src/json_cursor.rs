//! Navigating a parsed JSON value by a path of keys and indices, the same shape of path as
//! document navigation.
use vstd::prelude::*;

use crate::confix::nav::{steps_view, PathStep, StepView};

verus! {

/// A parsed JSON value. A number is kept as its text.
#[derive(Debug)]
pub enum JsonValue {
    Null,
    Bool(bool),
    Number(String),
    Text(String),
    Array(Vec<JsonValue>),
    /// Members in order, each key once.
    Object(Vec<(String, JsonValue)>),
}

/// The model of a JSON value.
pub enum JsonView {
    Null,
    Bool(bool),
    Number(Seq<char>),
    Text(Seq<char>),
    Array(Seq<JsonView>),
    Object(Seq<(Seq<char>, JsonView)>),
}

impl View for JsonValue {
    type V = JsonView;

    open spec fn view(&self) -> JsonView {
        self.node()
    }
}

impl JsonValue {
    /// The model of this value.
    pub open spec fn node(&self) -> JsonView
        decreases self,
    {
        match self {
            JsonValue::Null => JsonView::Null,
            JsonValue::Bool(b) => JsonView::Bool(*b),
            JsonValue::Number(n) => JsonView::Number(n@),
            JsonValue::Text(s) => JsonView::Text(s@),
            JsonValue::Array(xs) => JsonView::Array(
                Seq::new(
                    xs@.len(),
                    |i: int|
                        if 0 <= i < xs@.len() {
                            xs@[i].node()
                        } else {
                            JsonView::Null
                        },
                ),
            ),
            JsonValue::Object(ms) => JsonView::Object(
                Seq::new(
                    ms@.len(),
                    |i: int|
                        if 0 <= i < ms@.len() {
                            (ms@[i].0@, ms@[i].1.node())
                        } else {
                            (seq![], JsonView::Null)
                        },
                ),
            ),
        }
    }
}

impl JsonValue {
    /// A deep copy of this value.
    #[verifier::loop_isolation(false)]
    pub fn deep_clone(&self) -> (r: JsonValue)
        ensures
            r@ == self@,
        decreases self,
    {
        match self {
            JsonValue::Null => JsonValue::Null,
            JsonValue::Bool(b) => JsonValue::Bool(*b),
            JsonValue::Number(n) => JsonValue::Number(n.clone()),
            JsonValue::Text(t) => JsonValue::Text(t.clone()),
            JsonValue::Array(xs) => {
                let mut out: Vec<JsonValue> = Vec::new();
                let mut i: usize = 0;
                while i < xs.len()
                    invariant
                        i <= xs@.len(),
                        out@.len() == i,
                        forall|k: int| 0 <= k < i ==> (#[trigger] out@[k])@ == xs@[k]@,
                    decreases xs@.len() - i,
                {
                    out.push(xs[i].deep_clone());
                    i = i + 1;
                }
                let r = JsonValue::Array(out);
                assert(r@->Array_0 =~= self@->Array_0);
                r
            },
            JsonValue::Object(ms) => {
                let mut out: Vec<(String, JsonValue)> = Vec::new();
                let mut i: usize = 0;
                while i < ms.len()
                    invariant
                        i <= ms@.len(),
                        out@.len() == i,
                        forall|k: int|
                            0 <= k < i ==> (#[trigger] out@[k]).0@ == ms@[k].0@ && out@[k].1@ == ms@[k].1@,
                    decreases ms@.len() - i,
                {
                    let k = ms[i].0.clone();
                    let v = ms[i].1.deep_clone();
                    out.push((k, v));
                    i = i + 1;
                }
                let r = JsonValue::Object(out);
                assert(r@->Object_0 =~= self@->Object_0);
                r
            },
        }
    }
}

impl Clone for JsonValue {
    fn clone(&self) -> (r: JsonValue)
        ensures
            r@ == self@,
    {
        self.deep_clone()
    }
}

/// The position of the first member with key `key`, from `i` on.
pub open spec fn member_index(ms: Seq<(Seq<char>, JsonView)>, key: Seq<char>, i: int) -> Option<int>
    decreases ms.len() - i,
{
    if i < 0 || i >= ms.len() {
        None
    } else if ms[i].0 == key {
        Some(i)
    } else {
        member_index(ms, key, i + 1)
    }
}

/// One step from `v`: a key selects a member of an object, an index an element of an
/// array; `None` where the step does not apply.
pub open spec fn json_step(v: JsonView, step: StepView) -> Option<JsonView> {
    match step {
        StepView::Key(k) => match v {
            JsonView::Object(ms) => match member_index(ms, k, 0) {
                Some(i) => Some(ms[i].1),
                None => None,
            },
            _ => None,
        },
        StepView::Index(i) => match v {
            JsonView::Array(xs) => if i < xs.len() {
                Some(xs[i as int])
            } else {
                None
            },
            _ => None,
        },
    }
}

/// Where `path` leads from `v`, step by step; `None` once a step does not apply.
pub open spec fn json_focus_of(v: JsonView, path: Seq<StepView>) -> Option<JsonView>
    decreases path.len(),
{
    if path.len() == 0 {
        Some(v)
    } else {
        match json_focus_of(v, path.drop_last()) {
            Some(w) => json_step(w, path.last()),
            None => None,
        }
    }
}

proof fn lemma_json_focus_none(v: JsonView, p: Seq<StepView>, q: Seq<StepView>)
    requires
        json_focus_of(v, p) is None,
    ensures
        json_focus_of(v, p + q) is None,
    decreases q.len(),
{
    if q.len() == 0 {
        assert(p + q =~= p);
    } else {
        assert((p + q).drop_last() =~= p + q.drop_last());
        lemma_json_focus_none(v, p, q.drop_last());
    }
}

/// Following a path in two parts is following the first part and then the second from
/// where it led.
pub proof fn lemma_json_focus_concat(v: JsonView, p: Seq<StepView>, q: Seq<StepView>)
    ensures
        json_focus_of(v, p + q) == (match json_focus_of(v, p) {
            Some(w) => json_focus_of(w, q),
            None => None,
        }),
    decreases q.len(),
{
    if q.len() == 0 {
        assert(p + q =~= p);
    } else {
        assert((p + q).drop_last() =~= p + q.drop_last());
        lemma_json_focus_concat(v, p, q.drop_last());
        if json_focus_of(v, p) is None {
            lemma_json_focus_none(v, p, q);
        }
    }
}

/// The member of `ms` with key `key` (see `member_index`).
fn member_get<'a>(v: &'a JsonValue, key: &str) -> (r: Option<&'a JsonValue>)
    ensures
        match v@ {
            JsonView::Object(ms) => match member_index(ms, key@, 0) {
                Some(i) => r matches Some(w) && w@ == ms[i].1,
                None => r is None,
            },
            _ => r is None,
        },
{
    match v {
        JsonValue::Object(members) => {
            let ghost ms = v@->Object_0;
            let wanted = key.to_owned();
            let n = members.len();
            let mut i: usize = 0;
            while i < n
                invariant
                    i <= n,
                    n == members@.len(),
                    ms.len() == n,
                    v@ == JsonView::Object(ms),
                    wanted@ == key@,
                    forall|k: int| 0 <= k < n ==> #[trigger] ms[k] == (members@[k].0@, members@[k].1@),
                    member_index(ms, key@, i as int) == member_index(ms, key@, 0),
                decreases n - i,
            {
                assert(ms[i as int] == (members@[i as int].0@, members@[i as int].1@));
                if members[i].0 == wanted {
                    return Some(&members[i].1);
                }
                i = i + 1;
            }
            None
        },
        _ => None,
    }
}

/// The value `path` leads to from `root` (see `json_focus_of`).
pub fn focus<'a>(root: &'a JsonValue, path: &[PathStep]) -> (r: Option<&'a JsonValue>)
    ensures
        match json_focus_of(root@, steps_view(path@)) {
            Some(w) => r matches Some(v) && v@ == w,
            None => r is None,
        },
{
    let ghost sv = steps_view(path@);
    let mut cur: &JsonValue = root;
    let mut i: usize = 0;
    assert(sv.take(0) =~= Seq::<StepView>::empty());
    while i < path.len()
        invariant
            i <= path@.len(),
            sv == steps_view(path@),
            json_focus_of(root@, sv.take(i as int)) == Some(cur@),
        decreases path@.len() - i,
    {
        proof {
            assert(sv.take(i + 1).drop_last() =~= sv.take(i as int));
            assert(sv.take(i + 1).last() == path@[i as int]@);
        }
        let next: Option<&JsonValue> = match &path[i] {
            PathStep::Key(k) => member_get(cur, k.as_str()),
            PathStep::Index(j) => match cur {
                JsonValue::Array(items) => {
                    if *j < items.len() {
                        Some(&items[*j])
                    } else {
                        None
                    }
                },
                _ => None,
            },
        };
        match next {
            Some(n) => {
                cur = n;
            },
            None => {
                proof {
                    lemma_json_focus_none(root@, sv.take(i + 1), sv.skip(i + 1));
                    assert(sv.take(i + 1) + sv.skip(i + 1) =~= sv);
                }
                return None;
            },
        }
        i = i + 1;
    }
    assert(sv.take(i as int) =~= sv);
    Some(cur)
}

} // verus!
