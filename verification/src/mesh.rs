//! The compute worker of a mesh: one request in, one result out.
use vstd::prelude::*;
use vstd::string::*;

use crate::hllset::{height_count, plane_key, token_bits};
use crate::lattice::{text_tokens, LatticeElement};
use crate::text::{joined, same_text, split_words, texts, words};

verus! {

/// A request argument: the part of a JSON value that the operations read.
pub enum Arg {
    /// A JSON string.
    Text(String),
    /// A JSON array.
    List(Vec<Arg>),
    /// Any other JSON value.
    Other,
}

/// A compute request.
pub struct ComputeRequest {
    pub op: String,
    pub request_id: String,
    pub args: Arg,
}

/// What an operation yields.
pub enum Outcome {
    /// The content key of a lattice element.
    Key(String),
    /// How much of the second plane the first covers: shared bits and the
    /// bits of the second.
    Inclusion { shared: u64, total: u64 },
    /// The number of set bits for each height, from which the cardinality is
    /// estimated.
    Heights(Vec<u32>),
}

/// A compute result.
pub struct ComputeResult {
    pub op: String,
    pub request_id: String,
    pub result: Outcome,
    pub worker: String,
}

/// The strings among the members of an argument, in order.
pub open spec fn list_texts(args: Seq<Arg>) -> Seq<Seq<char>>
    decreases args.len(),
{
    if args.len() == 0 {
        Seq::empty()
    } else {
        let before = list_texts(args.drop_last());
        match args.last() {
            Arg::Text(s) => before.push(s@),
            _ => before,
        }
    }
}

/// The strings of an argument that is a list; none where it is not.
pub open spec fn arg_texts(arg: Arg) -> Seq<Seq<char>> {
    match arg {
        Arg::List(v) => list_texts(v@),
        _ => Seq::empty(),
    }
}

/// The strings of the list at a place of a list argument.
pub open spec fn nth_texts(arg: Arg, i: int) -> Seq<Seq<char>> {
    match arg {
        Arg::List(v) => if i < v@.len() {
            arg_texts(v@[i])
        } else {
            Seq::empty()
        },
        _ => Seq::empty(),
    }
}

/// The plane of some texts.
pub open spec fn plane_of_texts(s: Seq<Seq<char>>) -> Set<u32> {
    token_bits(text_tokens(s), 0)
}

/// The words of an argument that is a string; none where it is not.
pub open spec fn arg_words(arg: Arg) -> Seq<Seq<char>> {
    match arg {
        Arg::Text(s) => words(s@),
        _ => Seq::empty(),
    }
}

/// The operations of a worker.
pub open spec fn known_op(op: Seq<char>) -> bool {
    op == "tokenize"@ || op == "inscribe"@ || op == "union"@ || op == "intersect"@ || op == "bss"@
        || op == "cardinality"@
}

/// The operations that read two token lists.
pub open spec fn binary_op(op: Seq<char>) -> bool {
    op == "union"@ || op == "intersect"@ || op == "bss"@
}

/// What an operation yields on an argument.
pub open spec fn outcome_of(op: Seq<char>, arg: Arg, out: Outcome) -> bool {
    let a = plane_of_texts(nth_texts(arg, 0));
    let b = plane_of_texts(nth_texts(arg, 1));
    if op == "tokenize"@ {
        out matches Outcome::Key(k) && k@ == plane_key(plane_of_texts(arg_words(arg)))
    } else if op == "inscribe"@ {
        out matches Outcome::Key(k) && k@ == plane_key(plane_of_texts(arg_texts(arg)))
    } else if op == "union"@ {
        out matches Outcome::Key(k) && k@ == plane_key(a.union(b))
    } else if op == "intersect"@ {
        out matches Outcome::Key(k) && k@ == plane_key(a.intersect(b))
    } else if op == "bss"@ {
        out matches Outcome::Inclusion { shared, total } && shared == a.intersect(b).len() && total
            == b.len()
    } else {
        out matches Outcome::Heights(v) && v@.len() == 32 && forall|t: int|
            0 <= t < 32 ==> #[trigger] v@[t] == height_count(a, t as u32)
    }
}

fn strings_in(args: &Vec<Arg>) -> (r: Vec<String>)
    ensures
        texts(r@) == list_texts(args@),
{
    let mut out: Vec<String> = Vec::new();
    let mut i: usize = 0;
    proof {
        assert(args@.take(0) =~= Seq::empty());
        assert(texts(out@) =~= Seq::empty());
    }
    while i < args.len()
        invariant
            i <= args@.len(),
            texts(out@) == list_texts(args@.take(i as int)),
        decreases args@.len() - i,
    {
        proof {
            assert(args@.take(i + 1).drop_last() =~= args@.take(i as int));
        }
        match &args[i] {
            Arg::Text(s) => {
                let ghost before = out@;
                out.push(s.clone());
                proof {
                    assert(texts(out@) =~= texts(before).push(s@));
                }
            },
            _ => {},
        }
        i = i + 1;
    }
    proof {
        assert(args@.take(i as int) =~= args@);
    }
    out
}

fn strings_of(arg: &Arg) -> (r: Vec<String>)
    ensures
        texts(r@) == arg_texts(*arg),
{
    match arg {
        Arg::List(v) => strings_in(v),
        _ => {
            let r: Vec<String> = Vec::new();
            assert(texts(r@) =~= Seq::empty());
            r
        },
    }
}

fn strings_at(arg: &Arg, i: usize) -> (r: Vec<String>)
    ensures
        texts(r@) == nth_texts(*arg, i as int),
{
    let none: Vec<String> = Vec::new();
    assert(texts(none@) =~= Seq::empty());
    match arg {
        Arg::List(v) => if i < v.len() {
            strings_of(&v[i])
        } else {
            none
        },
        _ => none,
    }
}

/// The error of a request for two token lists whose argument is no list.
pub open spec fn not_a_list() -> Seq<char> {
    "args must be array of two token arrays"@
}

/// Reads two lattice elements from an argument: two lists of strings. What is
/// missing counts as an empty list; an argument that is no list is an error.
fn extract_two(args: &Arg) -> (r: Result<(LatticeElement, LatticeElement), String>)
    ensures
        r is Ok <==> args is List,
        r matches Ok(p) ==> p.0@ == plane_of_texts(nth_texts(*args, 0)) && p.1@ == plane_of_texts(
            nth_texts(*args, 1),
        ),
        r matches Err(e) ==> e@ == not_a_list(),
{
    match args {
        Arg::List(_) => {
            let a = strings_at(args, 0);
            let b = strings_at(args, 1);
            Ok((LatticeElement::from_texts(a.as_slice()), LatticeElement::from_texts(b.as_slice())))
        },
        _ => Err("args must be array of two token arrays".to_owned()),
    }
}

/// Performs an operation on an argument.
pub fn compute(op: &str, args: &Arg) -> (r: Result<Outcome, String>)
    ensures
        r is Ok <==> known_op(op@) && (binary_op(op@) ==> args is List),
        r matches Ok(out) ==> outcome_of(op@, *args, out),
        r matches Err(e) ==> e@ == if known_op(op@) {
            not_a_list()
        } else {
            "unknown operation: "@ + op@
        },
{
    proof {
        reveal_strlit("tokenize");
        reveal_strlit("inscribe");
        reveal_strlit("union");
        reveal_strlit("intersect");
        reveal_strlit("bss");
        reveal_strlit("cardinality");
        assert("tokenize"@.len() == 8 && "inscribe"@.len() == 8 && "cardinality"@.len() == 11);
        assert("union"@.len() == 5 && "intersect"@.len() == 9 && "bss"@.len() == 3);
    }
    if same_text(op, "tokenize") {
        let tokens: Vec<String> = match args {
            Arg::Text(s) => split_words(s.as_str()),
            _ => Vec::new(),
        };
        assert(texts(tokens@) =~= arg_words(*args));
        let elem = LatticeElement::from_texts(tokens.as_slice());
        Ok(Outcome::Key(elem.key().to_owned()))
    } else if same_text(op, "inscribe") {
        let tokens = strings_of(args);
        let elem = LatticeElement::from_texts(tokens.as_slice());
        Ok(Outcome::Key(elem.key().to_owned()))
    } else if same_text(op, "union") {
        match extract_two(args) {
            Ok((a, b)) => Ok(Outcome::Key(a.union(&b).key().to_owned())),
            Err(e) => Err(e),
        }
    } else if same_text(op, "intersect") {
        match extract_two(args) {
            Ok((a, b)) => Ok(Outcome::Key(a.intersection(&b).key().to_owned())),
            Err(e) => Err(e),
        }
    } else if same_text(op, "bss") {
        match extract_two(args) {
            Ok((a, b)) => Ok(
                Outcome::Inclusion {
                    shared: a.hllset().intersection(b.hllset()).popcount(),
                    total: b.hllset().popcount(),
                },
            ),
            Err(e) => Err(e),
        }
    } else if same_text(op, "cardinality") {
        let tokens = strings_at(args, 0);
        let elem = LatticeElement::from_texts(tokens.as_slice());
        Ok(Outcome::Heights(elem.hllset().bit_counts()))
    } else {
        Err(joined("unknown operation: ", op))
    }
}

/// A worker that answers compute requests.
pub struct WorkerNode {
    worker_id: String,
    request_count: u64,
}

impl WorkerNode {
    /// The worker's name.
    pub closed spec fn id(&self) -> Seq<char> {
        self.worker_id@
    }

    /// How many requests the worker has taken, wrapping around.
    pub closed spec fn requests(&self) -> u64 {
        self.request_count
    }

    /// A worker with the given name.
    pub fn new(worker_id: String) -> (r: Self)
        ensures
            r.id() == worker_id@,
            r.requests() == 0,
    {
        WorkerNode { worker_id, request_count: 0 }
    }

    /// Answers one request. A request for an unknown operation, or for an
    /// operation on two token lists whose argument is no list, is an error.
    pub fn handle_request(&mut self, req: ComputeRequest) -> (r: Result<ComputeResult, String>)
        ensures
            r is Ok <==> known_op(req.op@) && (binary_op(req.op@) ==> req.args is List),
            r matches Ok(out) ==> out.op@ == req.op@ && out.request_id@ == req.request_id@
                && out.worker@ == old(self).id() && outcome_of(req.op@, req.args, out.result),
            r matches Err(e) ==> e@ == if known_op(req.op@) {
                not_a_list()
            } else {
                "unknown operation: "@ + req.op@
            },
            final(self).id() == old(self).id(),
            final(self).requests() == old(self).requests().wrapping_add(1),
    {
        self.request_count = self.request_count.wrapping_add(1);
        match compute(req.op.as_str(), &req.args) {
            Ok(result) => Ok(
                ComputeResult {
                    op: req.op,
                    request_id: req.request_id,
                    result,
                    worker: self.worker_id.clone(),
                },
            ),
            Err(e) => Err(e),
        }
    }

    /// The worker's name.
    pub fn worker_id(&self) -> (r: &str)
        ensures
            r@ == self.id(),
    {
        self.worker_id.as_str()
    }
}

/// The strings of a list are read in order; what is no string is passed over.
pub proof fn strings_are_read_in_order(a: Seq<Arg>, b: Seq<Arg>, x: Arg)
    ensures
        list_texts(a + b) == list_texts(a) + list_texts(b),
        list_texts(seq![x]) == if x is Text {
            seq![x->Text_0@]
        } else {
            Seq::empty()
        },
    decreases b.len(),
{
    assert(seq![x].drop_last() =~= Seq::empty());
    let none = list_texts(seq![x].drop_last());
    assert(none =~= Seq::empty());
    if x is Text {
        assert(none.push(x->Text_0@) =~= seq![x->Text_0@]);
    }
    if b.len() == 0 {
        assert(a + b =~= a);
        assert(list_texts(a) + list_texts(b) =~= list_texts(a));
    } else {
        assert((a + b).drop_last() =~= a + b.drop_last());
        strings_are_read_in_order(a, b.drop_last(), x);
        assert(list_texts(a + b) =~= list_texts(a) + list_texts(b));
    }
}

/// What the operations on two lists yield: a union has the key of the plane of
/// both lists together, an intersection the key of the plane of the bits that
/// both set, and an inclusion counts those bits against the bits of the
/// second list.
pub proof fn operations_work_on_both_lists(x: Vec<Arg>, y: Vec<Arg>, arg: Arg, out: Outcome)
    requires
        arg matches Arg::List(v) && v@ == seq![Arg::List(x), Arg::List(y)],
    ensures
        outcome_of("union"@, arg, out) ==> out is Key && out->Key_0@ == plane_key(
            plane_of_texts(list_texts(x@) + list_texts(y@)),
        ),
        outcome_of("intersect"@, arg, out) ==> out is Key && exists|p: Set<u32>|
            out->Key_0@ == #[trigger] plane_key(p) && forall|b: u32| #[trigger]
                p.contains(b) <==> plane_of_texts(list_texts(x@)).contains(b) && plane_of_texts(
                    list_texts(y@),
                ).contains(b),
        outcome_of("bss"@, arg, out) ==> out is Inclusion && out->total == plane_of_texts(
            list_texts(y@),
        ).len() && out->shared == plane_of_texts(list_texts(x@)).intersect(
            plane_of_texts(list_texts(y@)),
        ).len(),
        outcome_of("inscribe"@, arg, out) ==> out is Key && out->Key_0@ == plane_key(
            plane_of_texts(Seq::empty()),
        ),
{
    reveal_strlit("tokenize");
    reveal_strlit("inscribe");
    reveal_strlit("union");
    reveal_strlit("intersect");
    reveal_strlit("bss");
    assert("tokenize"@[0] == 't' && "inscribe"@[0] == 'i');
    assert("tokenize"@.len() == 8 && "inscribe"@.len() == 8 && "union"@.len() == 5);
    assert("intersect"@.len() == 9 && "bss"@.len() == 3);
    let s = list_texts(x@);
    let t = list_texts(y@);
    let list = arg->List_0@;
    assert(list.len() == 2 && list[0] == Arg::List(x) && list[1] == Arg::List(y));
    assert(nth_texts(arg, 0) == s && nth_texts(arg, 1) == t);
    assert(text_tokens(s + t) =~= text_tokens(s) + text_tokens(t));
    crate::hllset::sketch_of_concatenation(text_tokens(s), text_tokens(t), 0);
    assert(list.drop_last().drop_last() =~= Seq::empty());
    assert(list_texts(list.drop_last().drop_last()) =~= Seq::empty());
    assert(list.drop_last().last() == list[0]);
    assert(list_texts(list.drop_last()) =~= Seq::empty());
    assert(list_texts(list) =~= Seq::empty());
    if outcome_of("intersect"@, arg, out) {
        let p = plane_of_texts(s).intersect(plane_of_texts(t));
        assert(out->Key_0@ == plane_key(p));
    }
}

/// The operations there are, and which of them read two lists.
pub proof fn there_are_six_operations(op: Seq<char>)
    ensures
        known_op("tokenize"@) && known_op("inscribe"@) && known_op("union"@) && known_op(
            "intersect"@,
        ) && known_op("bss"@) && known_op("cardinality"@),
        known_op(op) && !binary_op(op) ==> op == "tokenize"@ || op == "inscribe"@ || op
            == "cardinality"@,
        binary_op("union"@) && binary_op("intersect"@) && binary_op("bss"@),
        binary_op(op) ==> known_op(op),
        !binary_op("tokenize"@) && !binary_op("inscribe"@) && !binary_op("cardinality"@),
{
    reveal_strlit("tokenize");
    reveal_strlit("inscribe");
    reveal_strlit("union");
    reveal_strlit("intersect");
    reveal_strlit("bss");
    reveal_strlit("cardinality");
    assert("tokenize"@.len() == 8 && "inscribe"@.len() == 8 && "union"@.len() == 5);
    assert("intersect"@.len() == 9 && "bss"@.len() == 3 && "cardinality"@.len() == 11);
}

/// Tokenizing a text yields what inscribing the list of its words would, and a
/// cardinality is taken of the first list: the number of bits at each height.
pub proof fn texts_are_inscribed_by_their_words(text: String, arg: Arg, x: Vec<Arg>, out: Outcome)
    requires
        arg matches Arg::List(v) && v@.len() > 0 && v@[0] == Arg::List(x),
    ensures
        outcome_of("tokenize"@, Arg::Text(text), out) ==> out is Key && out->Key_0@ == plane_key(
            plane_of_texts(words(text@)),
        ),
        outcome_of("inscribe"@, Arg::List(x), out) ==> out is Key && out->Key_0@ == plane_key(
            plane_of_texts(list_texts(x@)),
        ),
        outcome_of("cardinality"@, arg, out) ==> out is Heights && out->Heights_0@.len() == 32
            && forall|t: int|
            0 <= t < 32 ==> #[trigger] out->Heights_0@[t] == height_count(
                plane_of_texts(list_texts(x@)),
                t as u32,
            ),
{
    reveal_strlit("tokenize");
    reveal_strlit("inscribe");
    reveal_strlit("union");
    reveal_strlit("intersect");
    reveal_strlit("bss");
    reveal_strlit("cardinality");
    assert("tokenize"@[0] == 't' && "inscribe"@[0] == 'i');
    assert("tokenize"@.len() == 8 && "inscribe"@.len() == 8 && "union"@.len() == 5);
    assert("intersect"@.len() == 9 && "bss"@.len() == 3 && "cardinality"@.len() == 11);
    assert(nth_texts(arg, 0) == list_texts(x@));
}

} // verus!
