//! The command surface of the tool, modelled as plain data.
//!
//! A convert run names a file and a `->`-separated list of transform
//! steps; a merge run names one shard of a model and an optional output
//! directory. Paths are carried as raw bytes. The decision at the heart
//! of the convert command -- mapping one trimmed step name to the
//! transform operator it denotes -- is `parse_step`, with an exact
//! contract; the surrounding string splitting and the dispatch into the
//! transform pipeline are plumbing that stays outside the verified
//! core.
use vstd::prelude::*;

verus! {

/// Arguments of a convert run: the file to convert, the raw step list,
/// and an optional output directory.
pub struct ConvertArgs {
    pub file: Vec<u8>,
    pub steps: Vec<u8>,
    pub output_dir: Option<Vec<u8>>,
}

/// Arguments of a merge run: one shard of the model to merge and an
/// optional output directory.
pub struct MergeArgs {
    pub file: Vec<u8>,
    pub output_dir: Option<Vec<u8>>,
}

/// One named transform step of the convert pipeline.
pub enum Operator {
    SortTensors,
    PermuteQK,
    MergeLinear(bool),
    ToLlama(Vec<u8>),
    Cast(Vec<u8>),
    FilterMetaKey(Vec<u8>),
    FilterTensorName(Vec<u8>),
}

/// Mathematical view of an operator.
pub ghost enum OperatorV {
    SortTensors,
    PermuteQK,
    MergeLinear(bool),
    ToLlama(Seq<u8>),
    Cast(Seq<u8>),
    FilterMetaKey(Seq<u8>),
    FilterTensorName(Seq<u8>),
}

impl View for Operator {
    type V = OperatorV;

    open spec fn view(&self) -> OperatorV {
        match self {
            Operator::SortTensors => OperatorV::SortTensors,
            Operator::PermuteQK => OperatorV::PermuteQK,
            Operator::MergeLinear(m) => OperatorV::MergeLinear(*m),
            Operator::ToLlama(x) => OperatorV::ToLlama(x@),
            Operator::Cast(x) => OperatorV::Cast(x@),
            Operator::FilterMetaKey(x) => OperatorV::FilterMetaKey(x@),
            Operator::FilterTensorName(x) => OperatorV::FilterTensorName(x@),
        }
    }
}

/// The step name `sort` as bytes.
pub open spec fn sort_lit() -> Seq<u8> {
    seq![115u8, 111u8, 114u8, 116u8]
}

/// The step name `permute-qk` as bytes.
pub open spec fn permute_qk_lit() -> Seq<u8> {
    seq![112u8, 101u8, 114u8, 109u8, 117u8, 116u8, 101u8, 45u8, 113u8, 107u8]
}

/// The step name `merge-linear` as bytes.
pub open spec fn merge_linear_lit() -> Seq<u8> {
    seq![109u8, 101u8, 114u8, 103u8, 101u8, 45u8, 108u8, 105u8, 110u8, 101u8, 97u8, 114u8]
}

/// The step name `split-linear` as bytes.
pub open spec fn split_linear_lit() -> Seq<u8> {
    seq![115u8, 112u8, 108u8, 105u8, 116u8, 45u8, 108u8, 105u8, 110u8, 101u8, 97u8, 114u8]
}

/// The step name `!merge-linear` as bytes.
pub open spec fn not_merge_linear_lit() -> Seq<u8> {
    seq![33u8, 109u8, 101u8, 114u8, 103u8, 101u8, 45u8, 108u8, 105u8, 110u8, 101u8, 97u8, 114u8]
}

/// The step name `to-llama` as bytes.
pub open spec fn to_llama_lit() -> Seq<u8> {
    seq![116u8, 111u8, 45u8, 108u8, 108u8, 97u8, 109u8, 97u8]
}

/// The step name `cast` as bytes.
pub open spec fn cast_lit() -> Seq<u8> {
    seq![99u8, 97u8, 115u8, 116u8]
}

/// The step name `filter-meta` as bytes.
pub open spec fn filter_meta_lit() -> Seq<u8> {
    seq![102u8, 105u8, 108u8, 116u8, 101u8, 114u8, 45u8, 109u8, 101u8, 116u8, 97u8]
}

/// The step name `filter-tensor` as bytes.
pub open spec fn filter_tensor_lit() -> Seq<u8> {
    seq![102u8, 105u8, 108u8, 116u8, 101u8, 114u8, 45u8, 116u8, 101u8, 110u8, 115u8, 111u8, 114u8]
}


/// The position of the first colon in `s` at or after `from`, or the
/// length of `s` when there is none.
pub open spec fn find_colon(s: Seq<u8>, from: int) -> int
    decreases s.len() - from,
{
    if from < 0 || from >= s.len() {
        s.len() as int
    } else if s[from] == 58 {
        from
    } else {
        find_colon(s, from + 1)
    }
}

/// The operator a trimmed step name denotes, if any: the fixed names
/// first, then the `name:argument` forms split at the first colon.
pub open spec fn step_spec(s: Seq<u8>) -> Option<OperatorV> {
    if s == sort_lit() {
        Some(OperatorV::SortTensors)
    } else if s == permute_qk_lit() {
        Some(OperatorV::PermuteQK)
    } else if s == merge_linear_lit() {
        Some(OperatorV::MergeLinear(true))
    } else if s == split_linear_lit() || s == not_merge_linear_lit() {
        Some(OperatorV::MergeLinear(false))
    } else if s == to_llama_lit() {
        Some(OperatorV::ToLlama(Seq::empty()))
    } else {
        let c = find_colon(s, 0);
        if c == s.len() {
            None
        } else {
            let head = s.take(c);
            let tail = s.skip(c + 1);
            if head == cast_lit() {
                Some(OperatorV::Cast(tail))
            } else if head == to_llama_lit() {
                Some(OperatorV::ToLlama(tail))
            } else if head == filter_meta_lit() {
                Some(OperatorV::FilterMetaKey(tail))
            } else if head == filter_tensor_lit() {
                Some(OperatorV::FilterTensorName(tail))
            } else {
                None
            }
        }
    }
}

fn sort_vec() -> (v: Vec<u8>)
    ensures
        v@ == sort_lit(),
{
    let mut v: Vec<u8> = Vec::new();
    v.push(115u8);
    v.push(111u8);
    v.push(114u8);
    v.push(116u8);
    assert(v@ =~= sort_lit());
    v
}

fn permute_qk_vec() -> (v: Vec<u8>)
    ensures
        v@ == permute_qk_lit(),
{
    let mut v: Vec<u8> = Vec::new();
    v.push(112u8);
    v.push(101u8);
    v.push(114u8);
    v.push(109u8);
    v.push(117u8);
    v.push(116u8);
    v.push(101u8);
    v.push(45u8);
    v.push(113u8);
    v.push(107u8);
    assert(v@ =~= permute_qk_lit());
    v
}

fn merge_linear_vec() -> (v: Vec<u8>)
    ensures
        v@ == merge_linear_lit(),
{
    let mut v: Vec<u8> = Vec::new();
    v.push(109u8);
    v.push(101u8);
    v.push(114u8);
    v.push(103u8);
    v.push(101u8);
    v.push(45u8);
    v.push(108u8);
    v.push(105u8);
    v.push(110u8);
    v.push(101u8);
    v.push(97u8);
    v.push(114u8);
    assert(v@ =~= merge_linear_lit());
    v
}

fn split_linear_vec() -> (v: Vec<u8>)
    ensures
        v@ == split_linear_lit(),
{
    let mut v: Vec<u8> = Vec::new();
    v.push(115u8);
    v.push(112u8);
    v.push(108u8);
    v.push(105u8);
    v.push(116u8);
    v.push(45u8);
    v.push(108u8);
    v.push(105u8);
    v.push(110u8);
    v.push(101u8);
    v.push(97u8);
    v.push(114u8);
    assert(v@ =~= split_linear_lit());
    v
}

fn not_merge_linear_vec() -> (v: Vec<u8>)
    ensures
        v@ == not_merge_linear_lit(),
{
    let mut v: Vec<u8> = Vec::new();
    v.push(33u8);
    v.push(109u8);
    v.push(101u8);
    v.push(114u8);
    v.push(103u8);
    v.push(101u8);
    v.push(45u8);
    v.push(108u8);
    v.push(105u8);
    v.push(110u8);
    v.push(101u8);
    v.push(97u8);
    v.push(114u8);
    assert(v@ =~= not_merge_linear_lit());
    v
}

fn to_llama_vec() -> (v: Vec<u8>)
    ensures
        v@ == to_llama_lit(),
{
    let mut v: Vec<u8> = Vec::new();
    v.push(116u8);
    v.push(111u8);
    v.push(45u8);
    v.push(108u8);
    v.push(108u8);
    v.push(97u8);
    v.push(109u8);
    v.push(97u8);
    assert(v@ =~= to_llama_lit());
    v
}

fn cast_vec() -> (v: Vec<u8>)
    ensures
        v@ == cast_lit(),
{
    let mut v: Vec<u8> = Vec::new();
    v.push(99u8);
    v.push(97u8);
    v.push(115u8);
    v.push(116u8);
    assert(v@ =~= cast_lit());
    v
}

fn filter_meta_vec() -> (v: Vec<u8>)
    ensures
        v@ == filter_meta_lit(),
{
    let mut v: Vec<u8> = Vec::new();
    v.push(102u8);
    v.push(105u8);
    v.push(108u8);
    v.push(116u8);
    v.push(101u8);
    v.push(114u8);
    v.push(45u8);
    v.push(109u8);
    v.push(101u8);
    v.push(116u8);
    v.push(97u8);
    assert(v@ =~= filter_meta_lit());
    v
}

fn filter_tensor_vec() -> (v: Vec<u8>)
    ensures
        v@ == filter_tensor_lit(),
{
    let mut v: Vec<u8> = Vec::new();
    v.push(102u8);
    v.push(105u8);
    v.push(108u8);
    v.push(116u8);
    v.push(101u8);
    v.push(114u8);
    v.push(45u8);
    v.push(116u8);
    v.push(101u8);
    v.push(110u8);
    v.push(115u8);
    v.push(111u8);
    v.push(114u8);
    assert(v@ =~= filter_tensor_lit());
    v
}


fn eq_bytes(a: &Vec<u8>, b: &Vec<u8>) -> (r: bool)
    ensures
        r == (a@ == b@),
{
    if a.len() != b.len() {
        assert(a@ != b@);
        return false;
    }
    for i in 0..a.len()
        invariant
            a@.len() == b@.len(),
            forall|j: int| 0 <= j < i ==> a@[j] == b@[j],
    {
        if a[i] != b[i] {
            return false;
        }
    }
    assert(a@ =~= b@);
    true
}

proof fn lemma_find_colon_from(s: Seq<u8>, from: int, i: int)
    requires
        0 <= from <= i <= s.len(),
        forall|j: int| from <= j < i ==> s[j] != 58,
        i < s.len() ==> s[i] == 58,
    ensures
        find_colon(s, from) == (if i < s.len() {
            i
        } else {
            s.len() as int
        }),
    decreases i - from,
{
    if from < i {
        lemma_find_colon_from(s, from + 1, i);
    }
}

/// Map one trimmed step name to the operator it denotes; `None` is the
/// unsupported-step case, on which the command surface fails.
pub fn parse_step(s: &Vec<u8>) -> (r: Option<Operator>)
    ensures
        match r {
            Some(op) => step_spec(s@) == Some(op@),
            None => step_spec(s@).is_none(),
        },
{
    if eq_bytes(s, &sort_vec()) {
        return Some(Operator::SortTensors);
    }
    if eq_bytes(s, &permute_qk_vec()) {
        return Some(Operator::PermuteQK);
    }
    if eq_bytes(s, &merge_linear_vec()) {
        return Some(Operator::MergeLinear(true));
    }
    if eq_bytes(s, &split_linear_vec()) || eq_bytes(s, &not_merge_linear_vec()) {
        return Some(Operator::MergeLinear(false));
    }
    if eq_bytes(s, &to_llama_vec()) {
        let e: Vec<u8> = Vec::new();
        assert(e@ =~= Seq::<u8>::empty());
        return Some(Operator::ToLlama(e));
    }
    let mut c: usize = 0;
    let n = s.len();
    while c < n && s[c] != 58
        invariant
            n == s@.len(),
            0 <= c <= n,
            forall|j: int| 0 <= j < c ==> s@[j] != 58,
        decreases n - c,
    {
        c += 1;
    }
    proof {
        lemma_find_colon_from(s@, 0, c as int);
    }
    if c == n {
        return None;
    }
    let mut head: Vec<u8> = Vec::new();
    for i in 0..c
        invariant
            c < s@.len(),
            head@ == s@.subrange(0, i as int),
    {
        head.push(s[i]);
        assert(head@ =~= s@.subrange(0, i + 1));
    }
    assert(head@ == s@.take(c as int));
    let mut tail: Vec<u8> = Vec::new();
    for i in (c + 1)..n
        invariant
            c < s@.len(),
            n == s@.len(),
            tail@ == s@.subrange(c + 1, i as int),
    {
        tail.push(s[i]);
        assert(tail@ =~= s@.subrange(c + 1, i + 1));
    }
    assert(tail@ =~= s@.skip(c + 1));
    if eq_bytes(&head, &cast_vec()) {
        return Some(Operator::Cast(tail));
    }
    if eq_bytes(&head, &to_llama_vec()) {
        return Some(Operator::ToLlama(tail));
    }
    if eq_bytes(&head, &filter_meta_vec()) {
        return Some(Operator::FilterMetaKey(tail));
    }
    if eq_bytes(&head, &filter_tensor_vec()) {
        return Some(Operator::FilterTensorName(tail));
    }
    None
}

} // verus!
