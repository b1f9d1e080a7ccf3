//! Merge engine for a sharded container of quantized tensors.
//!
//! A shard is one parsed container file: a metadata table (string key,
//! type tag, raw value bytes), a tensor record list, a declared byte
//! alignment, and the raw data segment. Merging deduplicates metadata
//! in first-seen order (dropping shard-partition keys and the alignment
//! key), takes the first-seen union of tensor records by name, picks
//! the maximum declared alignment as the global one, recomputes every
//! tensor's payload offset under that alignment, and emits the complete
//! consolidated container as one byte vector.
use vstd::prelude::*;

verus! {

/// One metadata table entry: a key, a value type tag, and the value's
/// raw serialized bytes (kept opaque by the merge).
pub struct MetaEntry {
    pub key: Vec<u8>,
    pub ty: u32,
    pub value: Vec<u8>,
}

/// Mathematical view of a metadata entry.
pub ghost struct MetaV {
    pub key: Seq<u8>,
    pub ty: u32,
    pub value: Seq<u8>,
}

impl View for MetaEntry {
    type V = MetaV;

    open spec fn view(&self) -> MetaV {
        MetaV { key: self.key@, ty: self.ty, value: self.value@ }
    }
}

/// One tensor record: name, shape, quantization type tag, byte offset
/// of its payload inside its shard's data segment, and payload length.
pub struct TensorRec {
    pub name: Vec<u8>,
    pub shape: Vec<u64>,
    pub ty: u32,
    pub offset: usize,
    pub nbytes: usize,
}

/// Mathematical view of a tensor record.
pub ghost struct TensorV {
    pub name: Seq<u8>,
    pub shape: Seq<u64>,
    pub ty: u32,
    pub offset: int,
    pub nbytes: int,
}

impl View for TensorRec {
    type V = TensorV;

    open spec fn view(&self) -> TensorV {
        TensorV {
            name: self.name@,
            shape: self.shape@,
            ty: self.ty,
            offset: self.offset as int,
            nbytes: self.nbytes as int,
        }
    }
}

/// One parsed shard: declared alignment, metadata table, tensor record
/// list, and the raw data segment the records point into.
pub struct Shard {
    pub alignment: usize,
    pub meta: Vec<MetaEntry>,
    pub tensors: Vec<TensorRec>,
    pub data: Vec<u8>,
}

/// Mathematical view of a shard.
pub ghost struct ShardV {
    pub alignment: int,
    pub meta: Seq<MetaV>,
    pub tensors: Seq<TensorV>,
    pub data: Seq<u8>,
}

impl View for Shard {
    type V = ShardV;

    open spec fn view(&self) -> ShardV {
        ShardV {
            alignment: self.alignment as int,
            meta: self.meta@.map_values(|e: MetaEntry| e@),
            tensors: self.tensors@.map_values(|t: TensorRec| t@),
            data: self.data@,
        }
    }
}

/// The views of a sequence of shards.
pub open spec fn shards_view(s: Seq<Shard>) -> Seq<ShardV> {
    s.map_values(|sh: Shard| sh@)
}

/// A shard's records stay inside its data segment and its alignment is
/// a positive divisor.
pub open spec fn shard_wf(s: ShardV) -> bool {
    &&& s.alignment >= 1
    &&& forall|k: int|
        0 <= k < s.tensors.len() ==> {
            &&& 0 <= #[trigger] s.tensors[k].offset
            &&& 0 <= s.tensors[k].nbytes
            &&& s.tensors[k].offset + s.tensors[k].nbytes <= s.data.len()
            &&& s.tensors[k].shape.len() <= u32::MAX
        }
}

/// A tensor chosen for the merged output: its record and the index of
/// the shard its payload bytes come from.
pub struct TaggedTensor {
    pub rec: TensorRec,
    pub shard: usize,
}

/// Key prefix that marks shard-partition bookkeeping entries.
pub open spec fn split_prefix() -> Seq<u8> {
    seq![115u8, 112u8, 108u8, 105u8, 116u8, 46u8]
}

/// The metadata key that declares a container's alignment.
pub open spec fn alignment_key() -> Seq<u8> {
    seq![103u8, 101u8, 110u8, 101u8, 114u8, 97u8, 108u8, 46u8,
         97u8, 108u8, 105u8, 103u8, 110u8, 109u8, 101u8, 110u8, 116u8]
}

/// A key the merge drops: shard-partition entries and the per-shard
/// alignment entry (the merged file declares a single global one).
pub open spec fn is_reserved_key(k: Seq<u8>) -> bool {
    (k.len() >= 6 && k.subrange(0, 6) == split_prefix()) || k == alignment_key()
}

/// All metadata entries of all shards, in shard order.
pub open spec fn all_meta(shards: Seq<ShardV>) -> Seq<MetaV>
    decreases shards.len(),
{
    if shards.len() == 0 {
        Seq::empty()
    } else {
        all_meta(shards.drop_last()) + shards.last().meta
    }
}

/// Does `entries` hold an entry with key `k`?
pub open spec fn has_key(entries: Seq<MetaV>, k: Seq<u8>) -> bool {
    exists|i: int| 0 <= i < entries.len() && entries[i].key == k
}

/// First-seen metadata deduplication: keep an entry iff its key is not
/// reserved and has not occurred earlier in the input.
pub open spec fn dedup_meta_spec(entries: Seq<MetaV>) -> Seq<MetaV>
    decreases entries.len(),
{
    if entries.len() == 0 {
        Seq::empty()
    } else {
        let pre = dedup_meta_spec(entries.drop_last());
        let e = entries.last();
        if !is_reserved_key(e.key) && !has_key(entries.drop_last(), e.key) {
            pre.push(e)
        } else {
            pre
        }
    }
}

/// All tensor records of all shards in shard order, each tagged with
/// its origin shard index.
pub open spec fn all_tensors(shards: Seq<ShardV>) -> Seq<(TensorV, int)>
    decreases shards.len(),
{
    if shards.len() == 0 {
        Seq::empty()
    } else {
        all_tensors(shards.drop_last()) + shards.last().tensors.map_values(
            |t: TensorV| (t, shards.len() - 1),
        )
    }
}

/// Does `ts` hold a tensor named `n`?
pub open spec fn has_name(ts: Seq<(TensorV, int)>, n: Seq<u8>) -> bool {
    exists|i: int| 0 <= i < ts.len() && ts[i].0.name == n
}

/// First-seen union of tensor records, keyed by name: the first
/// occurrence of each name wins.
pub open spec fn dedup_tensors_spec(ts: Seq<(TensorV, int)>) -> Seq<(TensorV, int)>
    decreases ts.len(),
{
    if ts.len() == 0 {
        Seq::empty()
    } else {
        let pre = dedup_tensors_spec(ts.drop_last());
        let e = ts.last();
        if !has_name(ts.drop_last(), e.0.name) {
            pre.push(e)
        } else {
            pre
        }
    }
}

/// The largest alignment any shard declares; 1 when there are none.
pub open spec fn max_alignment_spec(shards: Seq<ShardV>) -> int
    decreases shards.len(),
{
    if shards.len() == 0 {
        1
    } else {
        let pre = max_alignment_spec(shards.drop_last());
        if shards.last().alignment > pre {
            shards.last().alignment
        } else {
            pre
        }
    }
}

fn bytes_eq(a: &Vec<u8>, b: &Vec<u8>) -> (r: bool)
    ensures
        r == (a@ == b@),
{
    if a.len() != b.len() {
        assert(a@ != b@);
        return false;
    }
    for i in 0..a.len()
        invariant
            a@.len() == b@.len(),
            forall|j: int| 0 <= j < i ==> a@[j] == b@[j],
    {
        if a[i] != b[i] {
            return false;
        }
    }
    assert(a@ =~= b@);
    true
}

fn clone_bytes(a: &Vec<u8>) -> (r: Vec<u8>)
    ensures
        r@ == a@,
{
    let mut r: Vec<u8> = Vec::new();
    for i in 0..a.len()
        invariant
            r@ == a@.subrange(0, i as int),
    {
        r.push(a[i]);
        assert(r@ =~= a@.subrange(0, i + 1));
    }
    assert(r@ =~= a@);
    r
}

fn clone_shape(a: &Vec<u64>) -> (r: Vec<u64>)
    ensures
        r@ == a@,
{
    let mut r: Vec<u64> = Vec::new();
    for i in 0..a.len()
        invariant
            r@ == a@.subrange(0, i as int),
    {
        r.push(a[i]);
        assert(r@ =~= a@.subrange(0, i + 1));
    }
    assert(r@ =~= a@);
    r
}

fn clone_meta(e: &MetaEntry) -> (r: MetaEntry)
    ensures
        r@ == e@,
{
    MetaEntry { key: clone_bytes(&e.key), ty: e.ty, value: clone_bytes(&e.value) }
}

fn clone_tensor(t: &TensorRec) -> (r: TensorRec)
    ensures
        r@ == t@,
{
    TensorRec {
        name: clone_bytes(&t.name),
        shape: clone_shape(&t.shape),
        ty: t.ty,
        offset: t.offset,
        nbytes: t.nbytes,
    }
}

fn split_prefix_vec() -> (v: Vec<u8>)
    ensures
        v@ == split_prefix(),
{
    let mut v: Vec<u8> = Vec::new();
    v.push(115u8);
    v.push(112u8);
    v.push(108u8);
    v.push(105u8);
    v.push(116u8);
    v.push(46u8);
    assert(v@ =~= split_prefix());
    v
}

fn alignment_key_vec() -> (v: Vec<u8>)
    ensures
        v@ == alignment_key(),
{
    let mut v: Vec<u8> = Vec::new();
    v.push(103u8);
    v.push(101u8);
    v.push(110u8);
    v.push(101u8);
    v.push(114u8);
    v.push(97u8);
    v.push(108u8);
    v.push(46u8);
    v.push(97u8);
    v.push(108u8);
    v.push(105u8);
    v.push(103u8);
    v.push(110u8);
    v.push(109u8);
    v.push(101u8);
    v.push(110u8);
    v.push(116u8);
    assert(v@ =~= alignment_key());
    v
}

/// The views of a list of owned metadata entries.
pub open spec fn deep_meta(v: Seq<MetaEntry>) -> Seq<MetaV> {
    v.map_values(|e: MetaEntry| e@)
}

proof fn lemma_all_meta_snoc(svs: Seq<ShardV>, i: int)
    requires
        0 <= i < svs.len(),
    ensures
        all_meta(svs.take(i + 1)) == all_meta(svs.take(i)) + svs[i].meta,
{
    let t = svs.take(i + 1);
    assert(t.drop_last() =~= svs.take(i));
    assert(t.last() == svs[i]);
}

proof fn lemma_dedup_meta_snoc(s: Seq<MetaV>, e: MetaV)
    ensures
        dedup_meta_spec(s.push(e)) == (if !is_reserved_key(e.key) && !has_key(s, e.key) {
            dedup_meta_spec(s).push(e)
        } else {
            dedup_meta_spec(s)
        }),
{
    assert(s.push(e).drop_last() =~= s);
    assert(s.push(e).last() == e);
}

/// A non-reserved key occurs in the deduplicated table exactly when it
/// occurs anywhere in the input.
pub proof fn lemma_dedup_has_key(s: Seq<MetaV>, k: Seq<u8>)
    requires
        !is_reserved_key(k),
    ensures
        has_key(dedup_meta_spec(s), k) == has_key(s, k),
    decreases s.len(),
{
    if s.len() == 0 {
    } else {
        let d = s.drop_last();
        let e = s.last();
        lemma_dedup_has_key(d, k);
        // splitting an occurrence in s into one in d or the last entry
        assert(has_key(s, k) == (has_key(d, k) || e.key == k)) by {
            if has_key(s, k) {
                let i = choose|i: int| 0 <= i < s.len() && s[i].key == k;
                if i < s.len() - 1 {
                    assert(d[i].key == k);
                } else {
                    assert(e.key == k);
                }
            }
            if has_key(d, k) {
                let i = choose|i: int| 0 <= i < d.len() && d[i].key == k;
                assert(s[i].key == k);
            }
            if e.key == k {
                assert(s[s.len() - 1].key == k);
            }
        }
        let pre = dedup_meta_spec(d);
        if !is_reserved_key(e.key) && !has_key(d, e.key) {
            assert(dedup_meta_spec(s) == pre.push(e));
            assert(has_key(pre.push(e), k) == (has_key(pre, k) || e.key == k)) by {
                if has_key(pre.push(e), k) {
                    let i = choose|i: int| 0 <= i < pre.push(e).len() && pre.push(e)[i].key == k;
                    if i < pre.len() {
                        assert(pre[i].key == k);
                    }
                }
                if has_key(pre, k) {
                    let i = choose|i: int| 0 <= i < pre.len() && pre[i].key == k;
                    assert(pre.push(e)[i].key == k);
                }
                if e.key == k {
                    assert(pre.push(e)[pre.len() as int].key == k);
                }
            }
        } else {
            assert(dedup_meta_spec(s) == pre);
            if e.key == k {
                // the reserved case cannot apply to a non-reserved k,
                // so the key was already present earlier
                assert(has_key(d, k));
            }
        }
    }
}

/// Deduplicate the metadata tables of all shards: first-seen order,
/// reserved keys dropped, one entry per remaining key.
pub fn merge_meta(shards: &Vec<Shard>) -> (out: Vec<MetaEntry>)
    ensures
        deep_meta(out@) == dedup_meta_spec(all_meta(shards_view(shards@))),
{
    let ghost svs = shards_view(shards@);
    let mut out: Vec<MetaEntry> = Vec::new();
    assert(deep_meta(out@) =~= dedup_meta_spec(all_meta(svs.take(0))));
    for i in 0..shards.len()
        invariant
            svs == shards_view(shards@),
            svs.len() == shards@.len(),
            deep_meta(out@) == dedup_meta_spec(all_meta(svs.take(i as int))),
    {
        let sm = &shards[i].meta;
        assert(svs[i as int] == shards@[i as int]@);
        assert(svs[i as int].meta == sm@.map_values(|e: MetaEntry| e@));
        assert(svs[i as int].meta.take(0) =~= Seq::<MetaV>::empty());
        assert(all_meta(svs.take(i as int)) + svs[i as int].meta.take(0)
            =~= all_meta(svs.take(i as int)));
        for j in 0..sm.len()
            invariant
                svs == shards_view(shards@),
                svs.len() == shards@.len(),
                i < shards@.len(),
                sm@ == shards@[i as int].meta@,
                svs[i as int].meta == sm@.map_values(|e: MetaEntry| e@),
                deep_meta(out@) == dedup_meta_spec(
                    all_meta(svs.take(i as int)) + svs[i as int].meta.take(j as int),
                ),
    {
            let ghost prefix = all_meta(svs.take(i as int)) + svs[i as int].meta.take(j as int);
            let e = &sm[j];
            assert(e@ == svs[i as int].meta[j as int]);
            let reserved = is_reserved(&e.key);
            let mut pushed = false;
            if !reserved {
                let mut found = false;
                for k in 0..out.len()
                    invariant
                        found == (exists|l: int| 0 <= l < k && out@[l].key@ == e.key@),
                {
                    if bytes_eq(&out[k].key, &e.key) {
                        found = true;
                    }
                }
                proof {
                    assert(found == has_key(deep_meta(out@), e.key@)) by {
                        if found {
                            let l = choose|l: int|
                                0 <= l < out@.len() && out@[l].key@ == e.key@;
                            assert(deep_meta(out@)[l].key == e.key@);
                        }
                        if has_key(deep_meta(out@), e.key@) {
                            let l = choose|l: int|
                                0 <= l < deep_meta(out@).len()
                                    && deep_meta(out@)[l].key == e.key@;
                            assert(out@[l].key@ == e.key@);
                        }
                    }
                    lemma_dedup_has_key(prefix, e.key@);
                }
                if !found {
                    out.push(clone_meta(e));
                    pushed = true;
                }
            }
            proof {
                let ev = svs[i as int].meta[j as int];
                lemma_dedup_meta_snoc(prefix, ev);
                assert(svs[i as int].meta.take(j + 1)
                    =~= svs[i as int].meta.take(j as int).push(ev));
                assert(prefix.push(ev)
                    =~= all_meta(svs.take(i as int)) + svs[i as int].meta.take(j + 1));
                if pushed {
                    assert(deep_meta(out@)
                        =~= dedup_meta_spec(prefix).push(ev));
                }
            }
        }
        proof {
            lemma_all_meta_snoc(svs, i as int);
            assert(svs[i as int].meta.take(sm@.len() as int) =~= svs[i as int].meta);
        }
    }
    proof {
        assert(svs.take(shards@.len() as int) =~= svs);
    }
    out
}

/// The views of a list of tagged tensors.
pub open spec fn deep_tensors(v: Seq<TaggedTensor>) -> Seq<(TensorV, int)> {
    v.map_values(|t: TaggedTensor| (t.rec@, t.shard as int))
}

proof fn lemma_all_tensors_snoc(svs: Seq<ShardV>, i: int)
    requires
        0 <= i < svs.len(),
    ensures
        all_tensors(svs.take(i + 1)) == all_tensors(svs.take(i)) + svs[i].tensors.map_values(
            |t: TensorV| (t, i),
        ),
{
    let t = svs.take(i + 1);
    assert(t.drop_last() =~= svs.take(i));
    assert(t.last() == svs[i]);
    assert(t.len() - 1 == i);
}

proof fn lemma_dedup_tensors_snoc(s: Seq<(TensorV, int)>, e: (TensorV, int))
    ensures
        dedup_tensors_spec(s.push(e)) == (if !has_name(s, e.0.name) {
            dedup_tensors_spec(s).push(e)
        } else {
            dedup_tensors_spec(s)
        }),
{
    assert(s.push(e).drop_last() =~= s);
    assert(s.push(e).last() == e);
}

/// A name occurs in the deduplicated union exactly when it occurs
/// anywhere in the input.
pub proof fn lemma_dedup_has_name(s: Seq<(TensorV, int)>, n: Seq<u8>)
    ensures
        has_name(dedup_tensors_spec(s), n) == has_name(s, n),
    decreases s.len(),
{
    if s.len() == 0 {
    } else {
        let d = s.drop_last();
        let e = s.last();
        lemma_dedup_has_name(d, n);
        assert(has_name(s, n) == (has_name(d, n) || e.0.name == n)) by {
            if has_name(s, n) {
                let i = choose|i: int| 0 <= i < s.len() && s[i].0.name == n;
                if i < s.len() - 1 {
                    assert(d[i].0.name == n);
                }
            }
            if has_name(d, n) {
                let i = choose|i: int| 0 <= i < d.len() && d[i].0.name == n;
                assert(s[i].0.name == n);
            }
            if e.0.name == n {
                assert(s[s.len() - 1].0.name == n);
            }
        }
        let pre = dedup_tensors_spec(d);
        if !has_name(d, e.0.name) {
            assert(has_name(pre.push(e), n) == (has_name(pre, n) || e.0.name == n)) by {
                if has_name(pre.push(e), n) {
                    let i = choose|i: int|
                        0 <= i < pre.push(e).len() && pre.push(e)[i].0.name == n;
                    if i < pre.len() {
                        assert(pre[i].0.name == n);
                    }
                }
                if has_name(pre, n) {
                    let i = choose|i: int| 0 <= i < pre.len() && pre[i].0.name == n;
                    assert(pre.push(e)[i].0.name == n);
                }
                if e.0.name == n {
                    assert(pre.push(e)[pre.len() as int].0.name == n);
                }
            }
        }
    }
}

/// First-seen union of all shards' tensor records, each tagged with its
/// origin shard: the first occurrence of each name wins.
pub fn merge_tensors(shards: &Vec<Shard>) -> (out: Vec<TaggedTensor>)
    ensures
        deep_tensors(out@) == dedup_tensors_spec(all_tensors(shards_view(shards@))),
{
    let ghost svs = shards_view(shards@);
    let mut out: Vec<TaggedTensor> = Vec::new();
    assert(deep_tensors(out@) =~= dedup_tensors_spec(all_tensors(svs.take(0))));
    for i in 0..shards.len()
        invariant
            svs == shards_view(shards@),
            svs.len() == shards@.len(),
            deep_tensors(out@) == dedup_tensors_spec(all_tensors(svs.take(i as int))),
    {
        let st = &shards[i].tensors;
        assert(svs[i as int] == shards@[i as int]@);
        assert(svs[i as int].tensors == st@.map_values(|t: TensorRec| t@));
        let ghost tagged = svs[i as int].tensors.map_values(|t: TensorV| (t, i as int));
        assert(tagged.take(0) =~= Seq::<(TensorV, int)>::empty());
        assert(all_tensors(svs.take(i as int)) + tagged.take(0)
            =~= all_tensors(svs.take(i as int)));
        for j in 0..st.len()
            invariant
                svs == shards_view(shards@),
                svs.len() == shards@.len(),
                i < shards@.len(),
                st@ == shards@[i as int].tensors@,
                svs[i as int].tensors == st@.map_values(|t: TensorRec| t@),
                tagged == svs[i as int].tensors.map_values(|t: TensorV| (t, i as int)),
                tagged.len() == st@.len(),
                deep_tensors(out@) == dedup_tensors_spec(
                    all_tensors(svs.take(i as int)) + tagged.take(j as int),
                ),
        {
            let ghost prefix = all_tensors(svs.take(i as int)) + tagged.take(j as int);
            let t = &st[j];
            assert(t@ == svs[i as int].tensors[j as int]);
            assert(tagged[j as int] == (t@, i as int));
            let mut found = false;
            for k in 0..out.len()
                invariant
                    found == (exists|l: int| 0 <= l < k && out@[l].rec.name@ == t.name@),
            {
                if bytes_eq(&out[k].rec.name, &t.name) {
                    found = true;
                }
            }
            proof {
                assert(found == has_name(deep_tensors(out@), t.name@)) by {
                    if found {
                        let l = choose|l: int|
                            0 <= l < out@.len() && out@[l].rec.name@ == t.name@;
                        assert(deep_tensors(out@)[l].0.name == t.name@);
                    }
                    if has_name(deep_tensors(out@), t.name@) {
                        let l = choose|l: int|
                            0 <= l < deep_tensors(out@).len()
                                && deep_tensors(out@)[l].0.name == t.name@;
                        assert(out@[l].rec.name@ == t.name@);
                    }
                }
                lemma_dedup_has_name(prefix, t.name@);
            }
            let mut pushed = false;
            if !found {
                out.push(TaggedTensor { rec: clone_tensor(t), shard: i });
                pushed = true;
            }
            proof {
                let ev = tagged[j as int];
                lemma_dedup_tensors_snoc(prefix, ev);
                assert(tagged.take(j + 1) =~= tagged.take(j as int).push(ev));
                assert(prefix.push(ev)
                    =~= all_tensors(svs.take(i as int)) + tagged.take(j + 1));
                if pushed {
                    assert(deep_tensors(out@) =~= dedup_tensors_spec(prefix).push(ev));
                }
            }
        }
        proof {
            lemma_all_tensors_snoc(svs, i as int);
            assert(tagged.take(st@.len() as int) =~= tagged);
        }
    }
    proof {
        assert(svs.take(shards@.len() as int) =~= svs);
    }
    out
}

/// The largest alignment declared by any shard; every shard's declared
/// minimum is respected by the merged layout.
pub fn max_alignment(shards: &Vec<Shard>) -> (r: usize)
    requires
        forall|i: int| 0 <= i < shards@.len() ==> #[trigger] shard_wf(shards@[i]@),
    ensures
        r as int == max_alignment_spec(shards_view(shards@)),
        r >= 1,
        forall|i: int| 0 <= i < shards@.len() ==> #[trigger] shards@[i]@.alignment <= r as int,
{
    let ghost svs = shards_view(shards@);
    let mut r: usize = 1;
    assert(max_alignment_spec(svs.take(0)) == 1);
    for i in 0..shards.len()
        invariant
            svs == shards_view(shards@),
            svs.len() == shards@.len(),
            forall|k: int| 0 <= k < shards@.len() ==> #[trigger] shard_wf(shards@[k]@),
            r >= 1,
            r as int == max_alignment_spec(svs.take(i as int)),
            forall|k: int| 0 <= k < i ==> #[trigger] shards@[k]@.alignment <= r as int,
    {
        assert(shard_wf(shards@[i as int]@));
        let a = shards[i].alignment;
        proof {
            let t = svs.take(i + 1);
            assert(t.drop_last() =~= svs.take(i as int));
            assert(t.last() == svs[i as int]);
        }
        if a > r {
            r = a;
        }
    }
    proof {
        assert(svs.take(shards@.len() as int) =~= svs);
    }
    r
}

/// Zero bytes needed after position `x` to reach a multiple of `a`.
pub open spec fn pad_to(x: int, a: int) -> int {
    if x % a == 0 {
        0
    } else {
        a - (x % a)
    }
}

/// `x` rounded up to the next multiple of `a`.
pub open spec fn align_up(x: int, a: int) -> int {
    x + pad_to(x, a)
}

pub proof fn lemma_pad_to(x: int, a: int)
    requires
        a >= 1,
        x >= 0,
    ensures
        0 <= pad_to(x, a) < a,
        align_up(x, a) % a == 0,
        align_up(x, a) >= x,
{
    assert(0 <= x % a < a) by (nonlinear_arith)
        requires
            a >= 1,
            x >= 0,
    ;
    let r = x % a;
    if r != 0 {
        assert((x + (a - r)) % a == 0) by (nonlinear_arith)
            requires
                a >= 1,
                x >= 0,
                r == x % a,
                0 < r < a,
        ;
    }
}

/// Data-segment cursor after the first `k` merged tensors have been
/// placed: each tensor starts at the cursor, which then advances by the
/// tensor's length rounded up to the alignment. The offset recorded for
/// tensor `k` is exactly `cursor_after(ts, a, k)`.
pub open spec fn cursor_after(ts: Seq<(TensorV, int)>, a: int, k: int) -> int
    decreases k,
{
    if k <= 0 {
        0
    } else {
        align_up(cursor_after(ts, a, k - 1) + ts[k - 1].0.nbytes, a)
    }
}

/// All tensor lengths are nonnegative.
pub open spec fn sizes_ok(ts: Seq<(TensorV, int)>) -> bool {
    forall|i: int| 0 <= i < ts.len() ==> #[trigger] ts[i].0.nbytes >= 0
}

pub proof fn lemma_cursor_nonneg(ts: Seq<(TensorV, int)>, a: int, k: int)
    requires
        a >= 1,
        sizes_ok(ts),
        k <= ts.len(),
    ensures
        cursor_after(ts, a, k) >= 0,
    decreases k,
{
    if k > 0 {
        lemma_cursor_nonneg(ts, a, k - 1);
        lemma_pad_to(cursor_after(ts, a, k - 1) + ts[k - 1].0.nbytes, a);
    }
}

/// The cursor never moves backwards.
pub proof fn lemma_cursor_mono(ts: Seq<(TensorV, int)>, a: int, j: int, k: int)
    requires
        a >= 1,
        sizes_ok(ts),
        0 <= j <= k <= ts.len(),
    ensures
        cursor_after(ts, a, j) <= cursor_after(ts, a, k),
    decreases k - j,
{
    if j < k {
        lemma_cursor_mono(ts, a, j, k - 1);
        lemma_cursor_nonneg(ts, a, k - 1);
        lemma_pad_to(cursor_after(ts, a, k - 1) + ts[k - 1].0.nbytes, a);
    }
}

/// Alignment invariant: every recorded tensor offset is a multiple of
/// the global alignment.
pub proof fn lemma_cursor_aligned(ts: Seq<(TensorV, int)>, a: int, k: int)
    requires
        a >= 1,
        sizes_ok(ts),
        0 <= k <= ts.len(),
    ensures
        cursor_after(ts, a, k) % a == 0,
    decreases k,
{
    if k == 0 {
        assert(0int % a == 0) by (nonlinear_arith)
            requires
                a >= 1,
        ;
    } else {
        lemma_cursor_aligned(ts, a, k - 1);
        lemma_cursor_nonneg(ts, a, k - 1);
        lemma_pad_to(cursor_after(ts, a, k - 1) + ts[k - 1].0.nbytes, a);
    }
}

/// The four little-endian bytes of `x`.
pub open spec fn le32(x: u32) -> Seq<u8> {
    seq![
        (x & 0xff) as u8,
        ((x >> 8) & 0xff) as u8,
        ((x >> 16) & 0xff) as u8,
        ((x >> 24) & 0xff) as u8,
    ]
}

/// The eight little-endian bytes of `x`.
pub open spec fn le64(x: u64) -> Seq<u8> {
    seq![
        (x & 0xff) as u8,
        ((x >> 8) & 0xff) as u8,
        ((x >> 16) & 0xff) as u8,
        ((x >> 24) & 0xff) as u8,
        ((x >> 32) & 0xff) as u8,
        ((x >> 40) & 0xff) as u8,
        ((x >> 48) & 0xff) as u8,
        ((x >> 56) & 0xff) as u8,
    ]
}

/// `n` zero bytes.
pub open spec fn zeros(n: int) -> Seq<u8> {
    Seq::new(n as nat, |i: int| 0u8)
}

/// The container magic bytes.
pub open spec fn magic() -> Seq<u8> {
    seq![71u8, 71u8, 85u8, 70u8]
}

/// Serialized file header: magic, format version 3, tensor count,
/// metadata entry count.
pub open spec fn header_bytes(n_tensors: u64, n_kvs: u64) -> Seq<u8> {
    magic() + le32(3) + le64(n_tensors) + le64(n_kvs)
}

/// One serialized metadata entry: key length, key bytes, type tag,
/// value bytes.
pub open spec fn kv_bytes(e: MetaV) -> Seq<u8> {
    le64(e.key.len() as u64) + e.key + le32(e.ty) + e.value
}

/// The serialized metadata table, in order.
pub open spec fn kvs_bytes(kvs: Seq<MetaV>) -> Seq<u8>
    decreases kvs.len(),
{
    if kvs.len() == 0 {
        Seq::empty()
    } else {
        kvs_bytes(kvs.drop_last()) + kv_bytes(kvs.last())
    }
}

/// The serialized dimension list of a shape.
pub open spec fn dims_bytes(shape: Seq<u64>) -> Seq<u8>
    decreases shape.len(),
{
    if shape.len() == 0 {
        Seq::empty()
    } else {
        dims_bytes(shape.drop_last()) + le64(shape.last())
    }
}

/// One serialized tensor info record: name length, name bytes,
/// dimension count, dimensions, type tag, payload offset.
pub open spec fn info_bytes(t: TensorV, off: int) -> Seq<u8> {
    le64(t.name.len() as u64) + t.name + le32(t.shape.len() as u32) + dims_bytes(t.shape)
        + le32(t.ty) + le64(off as u64)
}

/// The serialized tensor info table for the first `k` merged tensors,
/// each with its recomputed offset.
pub open spec fn infos_bytes(ts: Seq<(TensorV, int)>, a: int, k: int) -> Seq<u8>
    decreases k,
{
    if k <= 0 {
        Seq::empty()
    } else {
        infos_bytes(ts, a, k - 1) + info_bytes(ts[k - 1].0, cursor_after(ts, a, k - 1))
    }
}

/// The alignment metadata entry the merged file declares.
pub open spec fn alignment_entry(a: int) -> MetaV {
    MetaV { key: alignment_key(), ty: 4u32, value: le32(a as u32) }
}

/// Everything before the data segment: header, the single alignment
/// entry, the deduplicated metadata table, the tensor info table.
pub open spec fn header_region(kvs: Seq<MetaV>, ts: Seq<(TensorV, int)>, a: int) -> Seq<u8> {
    header_bytes(ts.len() as u64, (kvs.len() + 1) as u64) + kv_bytes(alignment_entry(a))
        + kvs_bytes(kvs) + infos_bytes(ts, a, ts.len() as int)
}

/// The data segment after the first `k` merged tensors: each tensor's
/// leading zero padding followed by its bytes copied verbatim from its
/// origin shard.
pub open spec fn payload_bytes(
    shards: Seq<ShardV>,
    ts: Seq<(TensorV, int)>,
    a: int,
    k: int,
) -> Seq<u8>
    decreases k,
{
    if k <= 0 {
        Seq::empty()
    } else {
        let pre = payload_bytes(shards, ts, a, k - 1);
        let t = ts[k - 1].0;
        let src = shards[ts[k - 1].1].data.subrange(t.offset, t.offset + t.nbytes);
        pre + zeros(cursor_after(ts, a, k - 1) - pre.len()) + src
    }
}

/// The complete merged container: header region, padding that aligns
/// the data segment start, then the data segment.
pub open spec fn merged_bytes(shards: Seq<ShardV>) -> Seq<u8> {
    let kvs = dedup_meta_spec(all_meta(shards));
    let ts = dedup_tensors_spec(all_tensors(shards));
    let a = max_alignment_spec(shards);
    let hr = header_region(kvs, ts, a);
    hr + zeros(pad_to(hr.len() as int, a)) + payload_bytes(shards, ts, a, ts.len() as int)
}

fn push_le32(out: &mut Vec<u8>, x: u32)
    ensures
        final(out)@ == old(out)@ + le32(x),
{
    out.push((x & 0xff) as u8);
    out.push(((x >> 8) & 0xff) as u8);
    out.push(((x >> 16) & 0xff) as u8);
    out.push(((x >> 24) & 0xff) as u8);
    assert(out@ =~= old(out)@ + le32(x));
}

fn push_le64(out: &mut Vec<u8>, x: u64)
    ensures
        final(out)@ == old(out)@ + le64(x),
{
    out.push((x & 0xff) as u8);
    out.push(((x >> 8) & 0xff) as u8);
    out.push(((x >> 16) & 0xff) as u8);
    out.push(((x >> 24) & 0xff) as u8);
    out.push(((x >> 32) & 0xff) as u8);
    out.push(((x >> 40) & 0xff) as u8);
    out.push(((x >> 48) & 0xff) as u8);
    out.push(((x >> 56) & 0xff) as u8);
    assert(out@ =~= old(out)@ + le64(x));
}

fn push_slice(out: &mut Vec<u8>, src: &Vec<u8>, start: usize, len: usize)
    requires
        start + len <= src@.len(),
    ensures
        final(out)@ == old(out)@ + src@.subrange(start as int, start as int + len as int),
{
    let n = src.len();
    for i in 0..len
        invariant
            start + len <= n,
            n == src@.len(),
            out@ == old(out)@ + src@.subrange(start as int, start as int + i as int),
    {
        out.push(src[start + i]);
        assert(out@ =~= old(out)@ + src@.subrange(start as int, start as int + i + 1));
    }
}

fn push_zeros(out: &mut Vec<u8>, n: usize)
    ensures
        final(out)@ == old(out)@ + zeros(n as int),
{
    for i in 0..n
        invariant
            out@ == old(out)@ + zeros(i as int),
    {
        out.push(0u8);
        assert(out@ =~= old(out)@ + zeros(i + 1));
    }
    assert(out@ =~= old(out)@ + zeros(n as int));
}

/// Zero bytes needed after position `x` to reach a multiple of `a`.
pub fn pad(x: usize, a: usize) -> (r: usize)
    requires
        a >= 1,
    ensures
        r as int == pad_to(x as int, a as int),
        r < a,
{
    proof {
        lemma_pad_to(x as int, a as int);
    }
    let m = x % a;
    if m == 0 {
        0
    } else {
        a - m
    }
}

/// Is `key` one the merge must drop from the metadata table?
pub fn is_reserved(key: &Vec<u8>) -> (r: bool)
    ensures
        r == is_reserved_key(key@),
{
    let pre = split_prefix_vec();
    let ak = alignment_key_vec();
    if key.len() >= 6 {
        let mut same = true;
        for i in 0..6usize
            invariant
                key@.len() >= 6,
                pre@ == split_prefix(),
                same == (forall|j: int| 0 <= j < i ==> key@[j] == split_prefix()[j]),
        {
            if key[i] != pre[i] {
                same = false;
            }
        }
        if same {
            assert(key@.subrange(0, 6) =~= split_prefix());
            return true;
        }
        assert(key@.subrange(0, 6) != split_prefix()) by {
            let j = choose|j: int| 0 <= j < 6 && key@[j] != split_prefix()[j];
            assert(key@.subrange(0, 6)[j] != split_prefix()[j]);
        }
    }
    bytes_eq(key, &ak)
}

/// Every tagged tensor points at a real shard and a byte range inside
/// that shard's data segment.
pub open spec fn tensors_ok(svs: Seq<ShardV>, ts: Seq<(TensorV, int)>) -> bool {
    forall|i: int|
        0 <= i < ts.len() ==> {
            &&& 0 <= #[trigger] ts[i].1 < svs.len()
            &&& 0 <= ts[i].0.offset
            &&& 0 <= ts[i].0.nbytes
            &&& ts[i].0.offset + ts[i].0.nbytes <= svs[ts[i].1].data.len()
            &&& ts[i].0.shape.len() <= u32::MAX
        }
}

pub proof fn lemma_all_tensors_ok(svs: Seq<ShardV>)
    requires
        forall|i: int| 0 <= i < svs.len() ==> #[trigger] shard_wf(svs[i]),
    ensures
        tensors_ok(svs, all_tensors(svs)),
    decreases svs.len(),
{
    if svs.len() == 0 {
    } else {
        let d = svs.drop_last();
        lemma_all_tensors_ok(d);
        let pre = all_tensors(d);
        let tail = svs.last().tensors.map_values(|t: TensorV| (t, svs.len() - 1));
        assert(shard_wf(svs[svs.len() - 1]));
        assert forall|i: int| 0 <= i < all_tensors(svs).len() implies {
            &&& 0 <= #[trigger] all_tensors(svs)[i].1 < svs.len()
            &&& 0 <= all_tensors(svs)[i].0.offset
            &&& 0 <= all_tensors(svs)[i].0.nbytes
            &&& all_tensors(svs)[i].0.offset + all_tensors(svs)[i].0.nbytes
                <= svs[all_tensors(svs)[i].1].data.len()
            &&& all_tensors(svs)[i].0.shape.len() <= u32::MAX
        } by {
            if i < pre.len() {
                assert(all_tensors(svs)[i] == pre[i]);
                assert(svs[pre[i].1] == d[pre[i].1]);
            } else {
                let m = i - pre.len();
                assert(all_tensors(svs)[i] == tail[m]);
                assert(tail[m].0 == svs.last().tensors[m]);
            }
        }
    }
}

/// Every entry of the deduplicated union is an entry of the input.
pub proof fn lemma_dedup_tensors_elem(s: Seq<(TensorV, int)>)
    ensures
        forall|j: int|
            0 <= j < dedup_tensors_spec(s).len() ==> exists|i: int|
                0 <= i < s.len() && s[i] == #[trigger] dedup_tensors_spec(s)[j],
    decreases s.len(),
{
    if s.len() == 0 {
    } else {
        let d = s.drop_last();
        lemma_dedup_tensors_elem(d);
        let pre = dedup_tensors_spec(d);
        assert forall|j: int| 0 <= j < dedup_tensors_spec(s).len() implies exists|i: int|
            0 <= i < s.len() && s[i] == #[trigger] dedup_tensors_spec(s)[j] by {
            if j < pre.len() {
                assert(dedup_tensors_spec(s)[j] == pre[j]);
                let i = choose|i: int| 0 <= i < d.len() && d[i] == pre[j];
                assert(s[i] == dedup_tensors_spec(s)[j]);
            } else {
                assert(dedup_tensors_spec(s)[j] == s.last());
                assert(s[s.len() - 1] == dedup_tensors_spec(s)[j]);
            }
        }
    }
}

pub proof fn lemma_merged_tensors_ok(svs: Seq<ShardV>)
    requires
        forall|i: int| 0 <= i < svs.len() ==> #[trigger] shard_wf(svs[i]),
    ensures
        tensors_ok(svs, dedup_tensors_spec(all_tensors(svs))),
        sizes_ok(dedup_tensors_spec(all_tensors(svs))),
{
    lemma_all_tensors_ok(svs);
    lemma_dedup_tensors_elem(all_tensors(svs));
    let s = all_tensors(svs);
    let ds = dedup_tensors_spec(s);
    assert forall|i: int| 0 <= i < ds.len() implies {
        &&& 0 <= #[trigger] ds[i].1 < svs.len()
        &&& 0 <= ds[i].0.offset
        &&& 0 <= ds[i].0.nbytes
        &&& ds[i].0.offset + ds[i].0.nbytes <= svs[ds[i].1].data.len()
        &&& ds[i].0.shape.len() <= u32::MAX
    } by {
        let k = choose|k: int| 0 <= k < s.len() && s[k] == ds[i];
        assert(0 <= s[k].1 < svs.len());
    }
    assert forall|i: int| 0 <= i < ds.len() implies #[trigger] ds[i].0.nbytes >= 0 by {
        assert(0 <= ds[i].1 < svs.len());
    }
}

/// The merged output fits the machine: counts fit their header fields
/// and every byte position fits a `usize`.
pub open spec fn merge_fits(svs: Seq<ShardV>) -> bool {
    let kvs = dedup_meta_spec(all_meta(svs));
    let ts = dedup_tensors_spec(all_tensors(svs));
    let a = max_alignment_spec(svs);
    &&& a <= u32::MAX as int
    &&& kvs.len() + 1 <= u64::MAX as int
    &&& ts.len() <= u64::MAX as int
    &&& header_region(kvs, ts, a).len() + a + cursor_after(ts, a, ts.len() as int) + a
        <= usize::MAX as int
}

/// Length of the data segment after the first `k` tensors, and its
/// bound by the cursor.
pub proof fn lemma_payload_len(svs: Seq<ShardV>, ts: Seq<(TensorV, int)>, a: int, k: int)
    requires
        a >= 1,
        sizes_ok(ts),
        tensors_ok(svs, ts),
        0 <= k <= ts.len(),
    ensures
        payload_bytes(svs, ts, a, k).len() == if k == 0 {
            0int
        } else {
            cursor_after(ts, a, k - 1) + ts[k - 1].0.nbytes
        },
        payload_bytes(svs, ts, a, k).len() <= cursor_after(ts, a, k),
    decreases k,
{
    if k == 0 {
    } else {
        lemma_payload_len(svs, ts, a, k - 1);
        lemma_cursor_nonneg(ts, a, k - 1);
        lemma_pad_to(cursor_after(ts, a, k - 1) + ts[k - 1].0.nbytes, a);
        let pre = payload_bytes(svs, ts, a, k - 1);
        if k - 1 > 0 {
            lemma_pad_to(cursor_after(ts, a, k - 2) + ts[k - 2].0.nbytes, a);
        }
        assert(pre.len() <= cursor_after(ts, a, k - 1));
        let t = ts[k - 1].0;
        assert(svs[ts[k - 1].1].data.subrange(t.offset, t.offset + t.nbytes).len() == t.nbytes);
    }
}

/// Compute the recorded offset of every merged tensor: the data-segment
/// cursor positions under alignment `a`.
pub fn compute_offsets(ts: &Vec<TaggedTensor>, a: usize) -> (offs: Vec<usize>)
    requires
        a >= 1,
        sizes_ok(deep_tensors(ts@)),
        cursor_after(deep_tensors(ts@), a as int, ts@.len() as int) + a <= usize::MAX,
    ensures
        offs@.len() == ts@.len(),
        forall|k: int|
            0 <= k < offs@.len() ==> #[trigger] offs@[k] as int == cursor_after(
                deep_tensors(ts@),
                a as int,
                k,
            ),
{
    let ghost tsv = deep_tensors(ts@);
    let mut offs: Vec<usize> = Vec::new();
    let mut cur: usize = 0;
    for k in 0..ts.len()
        invariant
            a >= 1,
            tsv == deep_tensors(ts@),
            tsv.len() == ts@.len(),
            sizes_ok(tsv),
            cursor_after(tsv, a as int, tsv.len() as int) + a <= usize::MAX,
            cur as int == cursor_after(tsv, a as int, k as int),
            offs@.len() == k,
            forall|j: int|
                0 <= j < k ==> #[trigger] offs@[j] as int == cursor_after(tsv, a as int, j),
    {
        offs.push(cur);
        let n = ts[k].rec.nbytes;
        assert(tsv[k as int].0.nbytes == n as int);
        proof {
            lemma_cursor_mono(tsv, a as int, k + 1, tsv.len() as int);
            lemma_cursor_nonneg(tsv, a as int, k as int);
            lemma_pad_to(cur as int + n as int, a as int);
        }
        assert(cur + n <= usize::MAX);
        let s = cur + n;
        let p = pad(s, a);
        cur = s + p;
    }
    offs
}

/// Merge a set of parsed shards into the bytes of one consolidated
/// container: deduplicated metadata behind a single global alignment
/// entry, the first-seen union of tensors with recomputed aligned
/// offsets, and every tensor's payload copied verbatim from its origin
/// shard.
pub fn merge_shards(shards: &Vec<Shard>) -> (out: Vec<u8>)
    requires
        forall|i: int| 0 <= i < shards@.len() ==> #[trigger] shard_wf(shards@[i]@),
        merge_fits(shards_view(shards@)),
    ensures
        out@ == merged_bytes(shards_view(shards@)),
{
    let ghost svs = shards_view(shards@);
    proof {
        assert forall|i: int| 0 <= i < svs.len() implies #[trigger] shard_wf(svs[i]) by {
            assert(svs[i] == shards@[i]@);
        }
        lemma_merged_tensors_ok(svs);
    }
    let kvs = merge_meta(shards);
    let ts = merge_tensors(shards);
    let a = max_alignment(shards);
    let ghost kvsv = deep_meta(kvs@);
    let ghost tsv = deep_tensors(ts@);
    let ghost aa = a as int;
    proof {
        lemma_cursor_mono(tsv, aa, 0, tsv.len() as int);
    }
    let offs = compute_offsets(&ts, a);

    let mut out: Vec<u8> = Vec::new();
    out.push(71u8);
    out.push(71u8);
    out.push(85u8);
    out.push(70u8);
    assert(out@ =~= magic());
    push_le32(&mut out, 3);
    let nt: u64 = ts.len() as u64;
    push_le64(&mut out, nt);
    let nk: u64 = kvs.len() as u64 + 1;
    push_le64(&mut out, nk);
    let ghost hb = header_bytes(tsv.len() as u64, (kvsv.len() + 1) as u64);
    assert(out@ =~= hb);

    let ak = alignment_key_vec();
    push_le64(&mut out, 17u64);
    push_slice(&mut out, &ak, 0, 17);
    push_le32(&mut out, 4u32);
    push_le32(&mut out, a as u32);
    let ghost akv = kv_bytes(alignment_entry(aa));
    assert(ak@.subrange(0, 17) =~= alignment_key());
    assert(alignment_key().len() == 17);
    assert(out@ =~= hb + akv);

    assert(kvs_bytes(kvsv.take(0)) =~= Seq::<u8>::empty());
    assert(out@ =~= hb + akv + kvs_bytes(kvsv.take(0)));
    for j in 0..kvs.len()
        invariant
            kvsv == deep_meta(kvs@),
            kvsv.len() == kvs@.len(),
            out@ == hb + akv + kvs_bytes(kvsv.take(j as int)),
    {
        let e = &kvs[j];
        assert(e@ == kvsv[j as int]);
        push_le64(&mut out, e.key.len() as u64);
        push_slice(&mut out, &e.key, 0, e.key.len());
        push_le32(&mut out, e.ty);
        push_slice(&mut out, &e.value, 0, e.value.len());
        proof {
            assert(kvsv.take(j + 1).drop_last() =~= kvsv.take(j as int));
            assert(kvsv.take(j + 1).last() == kvsv[j as int]);
            assert(e.key@.subrange(0, e.key@.len() as int) =~= e.key@);
            assert(e.value@.subrange(0, e.value@.len() as int) =~= e.value@);
            assert(out@ =~= hb + akv + kvs_bytes(kvsv.take(j + 1)));
        }
    }
    assert(kvsv.take(kvs@.len() as int) =~= kvsv);
    let ghost kvb = kvs_bytes(kvsv);
    assert(out@ == hb + akv + kvb);

    assert(out@ =~= hb + akv + kvb + infos_bytes(tsv, aa, 0));
    for k in 0..ts.len()
        invariant
            tsv == deep_tensors(ts@),
            tsv.len() == ts@.len(),
            svs == shards_view(shards@),
            tensors_ok(svs, tsv),
            aa == a as int,
            offs@.len() == ts@.len(),
            forall|j: int|
                0 <= j < offs@.len() ==> #[trigger] offs@[j] as int == cursor_after(tsv, aa, j),
            out@ == hb + akv + kvb + infos_bytes(tsv, aa, k as int),
    {
        let t = &ts[k].rec;
        assert(tsv[k as int] == (t@, ts@[k as int].shard as int));
        proof {
            let tag = tsv[k as int].1;
            assert(0 <= tag && tag < svs.len());
        }
        assert(tsv[k as int].0.shape.len() <= u32::MAX);
        push_le64(&mut out, t.name.len() as u64);
        push_slice(&mut out, &t.name, 0, t.name.len());
        push_le32(&mut out, t.shape.len() as u32);
        let ghost before_dims = out@;
        assert(dims_bytes(t.shape@.take(0)) =~= Seq::<u8>::empty());
        assert(out@ =~= before_dims + dims_bytes(t.shape@.take(0)));
        for d in 0..t.shape.len()
            invariant
                out@ == before_dims + dims_bytes(t.shape@.take(d as int)),
        {
            push_le64(&mut out, t.shape[d]);
            proof {
                assert(t.shape@.take(d + 1).drop_last() =~= t.shape@.take(d as int));
                assert(t.shape@.take(d + 1).last() == t.shape@[d as int]);
                assert(out@ =~= before_dims + dims_bytes(t.shape@.take(d + 1)));
            }
        }
        assert(t.shape@.take(t.shape@.len() as int) =~= t.shape@);
        push_le32(&mut out, t.ty);
        push_le64(&mut out, offs[k] as u64);
        proof {
            assert(t.name@.subrange(0, t.name@.len() as int) =~= t.name@);
            assert(out@ =~= hb + akv + kvb + infos_bytes(tsv, aa, k as int) + info_bytes(
                tsv[k as int].0,
                cursor_after(tsv, aa, k as int),
            ));
            assert(out@ =~= hb + akv + kvb + infos_bytes(tsv, aa, k + 1));
        }
    }
    let ghost hr = header_region(kvsv, tsv, aa);
    assert(infos_bytes(tsv, aa, ts@.len() as int) == infos_bytes(tsv, aa, tsv.len() as int));
    assert(out@ =~= hr);

    let p0 = pad(out.len(), a);
    push_zeros(&mut out, p0);
    let ds = out.len();
    let ghost z0 = zeros(pad_to(hr.len() as int, aa));
    assert(out@ == hr + z0);
    assert(ds as int == hr.len() + pad_to(hr.len() as int, aa));

    assert(out@ =~= hr + z0 + payload_bytes(svs, tsv, aa, 0));
    for k in 0..ts.len()
        invariant
            tsv == deep_tensors(ts@),
            tsv.len() == ts@.len(),
            svs == shards_view(shards@),
            svs.len() == shards@.len(),
            aa == a as int,
            a >= 1,
            sizes_ok(tsv),
            tensors_ok(svs, tsv),
            cursor_after(tsv, aa, tsv.len() as int) + aa + ds as int <= usize::MAX,
            offs@.len() == ts@.len(),
            forall|j: int|
                0 <= j < offs@.len() ==> #[trigger] offs@[j] as int == cursor_after(tsv, aa, j),
            ds as int == hr.len() + pad_to(hr.len() as int, aa),
            out@ == hr + z0 + payload_bytes(svs, tsv, aa, k as int),
            out@.len() == ds as int + payload_bytes(svs, tsv, aa, k as int).len(),
    {
        let ghost pre = payload_bytes(svs, tsv, aa, k as int);
        proof {
            lemma_payload_len(svs, tsv, aa, k as int);
            lemma_cursor_mono(tsv, aa, k as int, tsv.len() as int);
            lemma_cursor_nonneg(tsv, aa, k as int);
        }
        let cur_rel = out.len() - ds;
        let target = offs[k];
        assert(cur_rel as int == pre.len());
        assert(cur_rel <= target);
        let gap = target - cur_rel;
        push_zeros(&mut out, gap);
        let sh = ts[k].shard;
        let t = &ts[k].rec;
        assert(tsv[k as int] == (t@, sh as int));
        proof {
            let tag = tsv[k as int].1;
            assert(0 <= tag && tag < svs.len());
            assert(tsv[k as int].0.offset + tsv[k as int].0.nbytes <= svs[tag].data.len());
        }
        assert(0 <= sh as int && (sh as int) < svs.len());
        assert(svs[sh as int] == shards@[sh as int]@);
        assert(t.offset + t.nbytes <= shards@[sh as int].data@.len());
        push_slice(&mut out, &shards[sh].data, t.offset, t.nbytes);
        proof {
            let tv = tsv[k as int].0;
            let src = svs[tsv[k as int].1].data.subrange(tv.offset, tv.offset + tv.nbytes);
            assert(shards@[sh as int].data@.subrange(
                t.offset as int,
                t.offset as int + t.nbytes as int,
            ) =~= src);
            assert(zeros(gap as int) =~= zeros(cursor_after(tsv, aa, k as int) - pre.len()));
            assert(out@ =~= hr + z0 + (pre + zeros(cursor_after(tsv, aa, k as int) - pre.len())
                + src));
            assert(payload_bytes(svs, tsv, aa, k + 1) == pre + zeros(
                cursor_after(tsv, aa, k as int) - pre.len(),
            ) + src);
            lemma_payload_len(svs, tsv, aa, k + 1);
        }
    }
    assert(out@ =~= merged_bytes(svs));
    out
}

/// The global alignment is positive and respects every shard's
/// declared minimum.
pub proof fn lemma_max_alignment(svs: Seq<ShardV>)
    requires
        forall|i: int| 0 <= i < svs.len() ==> #[trigger] svs[i].alignment >= 1,
    ensures
        max_alignment_spec(svs) >= 1,
        forall|i: int| 0 <= i < svs.len() ==> #[trigger] svs[i].alignment <= max_alignment_spec(
            svs,
        ),
    decreases svs.len(),
{
    if svs.len() > 0 {
        let d = svs.drop_last();
        lemma_max_alignment(d);
        assert forall|i: int| 0 <= i < svs.len() implies #[trigger] svs[i].alignment
            <= max_alignment_spec(svs) by {
            if i < svs.len() - 1 {
                assert(svs[i] == d[i]);
            }
        }
    }
}

/// Alignment invariant of the merged layout: every recorded tensor
/// offset is a multiple of the global alignment, and the data segment
/// itself starts at an aligned file position.
pub proof fn lemma_merge_alignment(svs: Seq<ShardV>)
    requires
        forall|i: int| 0 <= i < svs.len() ==> #[trigger] shard_wf(svs[i]),
    ensures
        forall|k: int|
            0 <= k <= dedup_tensors_spec(all_tensors(svs)).len() ==> #[trigger] cursor_after(
                dedup_tensors_spec(all_tensors(svs)),
                max_alignment_spec(svs),
                k,
            ) % max_alignment_spec(svs) == 0,
        align_up(
            header_region(
                dedup_meta_spec(all_meta(svs)),
                dedup_tensors_spec(all_tensors(svs)),
                max_alignment_spec(svs),
            ).len() as int,
            max_alignment_spec(svs),
        ) % max_alignment_spec(svs) == 0,
{
    let ts = dedup_tensors_spec(all_tensors(svs));
    let a = max_alignment_spec(svs);
    assert forall|i: int| 0 <= i < svs.len() implies #[trigger] svs[i].alignment >= 1 by {
        assert(shard_wf(svs[i]));
    }
    lemma_max_alignment(svs);
    lemma_merged_tensors_ok(svs);
    assert forall|k: int| 0 <= k <= ts.len() implies #[trigger] cursor_after(ts, a, k) % a
        == 0 by {
        lemma_cursor_aligned(ts, a, k);
    }
    let hr = header_region(dedup_meta_spec(all_meta(svs)), ts, a);
    lemma_pad_to(hr.len() as int, a);
}

proof fn lemma_payload_slices(svs: Seq<ShardV>, ts: Seq<(TensorV, int)>, a: int, m: int)
    requires
        a >= 1,
        sizes_ok(ts),
        tensors_ok(svs, ts),
        0 <= m <= ts.len(),
    ensures
        forall|k: int|
            0 <= k < m ==> payload_bytes(svs, ts, a, m).subrange(
                cursor_after(ts, a, k),
                cursor_after(ts, a, k) + ts[k].0.nbytes,
            ) == svs[ts[k].1].data.subrange(ts[k].0.offset, ts[k].0.offset + ts[k].0.nbytes),
    decreases m,
{
    if m > 0 {
        lemma_payload_slices(svs, ts, a, m - 1);
        lemma_payload_len(svs, ts, a, m - 1);
        lemma_payload_len(svs, ts, a, m);
        let pre = payload_bytes(svs, ts, a, m - 1);
        let cm = cursor_after(ts, a, m - 1);
        let t = ts[m - 1].0;
        let src = svs[ts[m - 1].1].data.subrange(t.offset, t.offset + t.nbytes);
        let whole = payload_bytes(svs, ts, a, m);
        assert(whole == pre + zeros(cm - pre.len()) + src);
        assert forall|k: int|
            0 <= k < m implies whole.subrange(
                cursor_after(ts, a, k),
                cursor_after(ts, a, k) + ts[k].0.nbytes,
            ) == svs[ts[k].1].data.subrange(
                ts[k].0.offset,
                ts[k].0.offset + ts[k].0.nbytes,
            ) by {
            let off = cursor_after(ts, a, k);
            let n = ts[k].0.nbytes;
            let dst = svs[ts[k].1].data.subrange(ts[k].0.offset, ts[k].0.offset + n);
            if k < m - 1 {
                lemma_payload_len(svs, ts, a, k + 1);
                if k == m - 2 {
                    assert(off + n == pre.len());
                } else {
                    lemma_cursor_mono(ts, a, k + 1, m - 2);
                    lemma_cursor_nonneg(ts, a, m - 2);
                    assert(ts[m - 2].0.nbytes >= 0);
                    assert(pre.len() == cursor_after(ts, a, m - 2) + ts[m - 2].0.nbytes);
                }
                assert(off + n <= pre.len());
                assert(pre.subrange(off, off + n) == dst);
                assert(whole.subrange(off, off + n) =~= pre.subrange(off, off + n));
            } else {
                assert(off == cm);
                lemma_cursor_nonneg(ts, a, m - 1);
                assert(pre.len() + (cm - pre.len()) == off);
                assert(whole.subrange(off, off + n) =~= src);
            }
        }
    }
}

/// Layout invariant of the merged container: slicing the output at a
/// tensor's recorded offset (relative to the data segment start) yields
/// exactly that tensor's bytes in its origin shard.
#[verifier::rlimit(100)]
pub proof fn lemma_merge_layout(svs: Seq<ShardV>)
    requires
        forall|i: int| 0 <= i < svs.len() ==> #[trigger] shard_wf(svs[i]),
    ensures
        forall|k: int|
            0 <= k < dedup_tensors_spec(all_tensors(svs)).len()
                ==> #[trigger] merged_bytes(svs).subrange(
                align_up(
                    header_region(
                        dedup_meta_spec(all_meta(svs)),
                        dedup_tensors_spec(all_tensors(svs)),
                        max_alignment_spec(svs),
                    ).len() as int,
                    max_alignment_spec(svs),
                ) + cursor_after(
                    dedup_tensors_spec(all_tensors(svs)),
                    max_alignment_spec(svs),
                    k,
                ),
                align_up(
                    header_region(
                        dedup_meta_spec(all_meta(svs)),
                        dedup_tensors_spec(all_tensors(svs)),
                        max_alignment_spec(svs),
                    ).len() as int,
                    max_alignment_spec(svs),
                ) + cursor_after(
                    dedup_tensors_spec(all_tensors(svs)),
                    max_alignment_spec(svs),
                    k,
                ) + dedup_tensors_spec(all_tensors(svs))[k].0.nbytes,
            ) == svs[dedup_tensors_spec(all_tensors(svs))[k].1].data.subrange(
                dedup_tensors_spec(all_tensors(svs))[k].0.offset,
                dedup_tensors_spec(all_tensors(svs))[k].0.offset + dedup_tensors_spec(
                    all_tensors(svs),
                )[k].0.nbytes,
            ),
{
    let kvs = dedup_meta_spec(all_meta(svs));
    let ts = dedup_tensors_spec(all_tensors(svs));
    let a = max_alignment_spec(svs);
    let hr = header_region(kvs, ts, a);
    let ds = align_up(hr.len() as int, a);
    assert forall|i: int| 0 <= i < svs.len() implies #[trigger] svs[i].alignment >= 1 by {
        assert(shard_wf(svs[i]));
    }
    lemma_max_alignment(svs);
    lemma_merged_tensors_ok(svs);
    lemma_payload_slices(svs, ts, a, ts.len() as int);
    lemma_pad_to(hr.len() as int, a);
    let pl = payload_bytes(svs, ts, a, ts.len() as int);
    let whole = merged_bytes(svs);
    assert(whole == hr + zeros(pad_to(hr.len() as int, a)) + pl);
    assert(whole.len() == ds + pl.len());
    assert forall|k: int|
        0 <= k < ts.len() implies #[trigger] merged_bytes(svs).subrange(
        ds + cursor_after(ts, a, k),
        ds + cursor_after(ts, a, k) + ts[k].0.nbytes,
    ) == svs[ts[k].1].data.subrange(
        ts[k].0.offset,
        ts[k].0.offset + ts[k].0.nbytes,
    ) by {
        let off = cursor_after(ts, a, k);
        let n = ts[k].0.nbytes;
        lemma_payload_len(svs, ts, a, k + 1);
        lemma_payload_len(svs, ts, a, ts.len() as int);
        lemma_cursor_nonneg(ts, a, k);
        if k == ts.len() - 1 {
            assert(off + n == pl.len());
        } else {
            lemma_cursor_mono(ts, a, k + 1, ts.len() - 1);
            lemma_cursor_nonneg(ts, a, ts.len() - 1);
            assert(ts[ts.len() - 1].0.nbytes >= 0);
            assert(pl.len() == cursor_after(ts, a, ts.len() - 1) + ts[ts.len() - 1].0.nbytes);
        }
        assert(off + n <= pl.len());
        assert(pl.subrange(off, off + n) == svs[ts[k].1].data.subrange(
            ts[k].0.offset,
            ts[k].0.offset + n,
        ));
        assert(whole.subrange(ds + off, ds + off + n) =~= pl.subrange(off, off + n));
    }
}

/// Metadata deduplication is sound: no reserved key survives, the
/// surviving keys are pairwise distinct, and every non-reserved input
/// key survives.
pub proof fn lemma_merged_meta_sound(entries: Seq<MetaV>)
    ensures
        forall|i: int|
            0 <= i < dedup_meta_spec(entries).len() ==> !is_reserved_key(
                #[trigger] dedup_meta_spec(entries)[i].key,
            ),
        forall|i: int, j: int|
            0 <= i < j < dedup_meta_spec(entries).len() ==> #[trigger] dedup_meta_spec(
                entries,
            )[i].key != #[trigger] dedup_meta_spec(entries)[j].key,
        forall|i: int|
            0 <= i < entries.len() && !is_reserved_key(#[trigger] entries[i].key) ==> has_key(
                dedup_meta_spec(entries),
                entries[i].key,
            ),
    decreases entries.len(),
{
    if entries.len() == 0 {
    } else {
        let d = entries.drop_last();
        let e = entries.last();
        lemma_merged_meta_sound(d);
        let pre = dedup_meta_spec(d);
        let whole = dedup_meta_spec(entries);
        if !is_reserved_key(e.key) && !has_key(d, e.key) {
            assert(whole == pre.push(e));
            assert forall|i: int| 0 <= i < whole.len() implies !is_reserved_key(
                #[trigger] whole[i].key,
            ) by {
                if i < pre.len() {
                    assert(whole[i] == pre[i]);
                }
            }
            assert forall|i: int, j: int| 0 <= i < j < whole.len() implies #[trigger] whole[i].key
                != #[trigger] whole[j].key by {
                if j < pre.len() {
                    assert(whole[i] == pre[i] && whole[j] == pre[j]);
                } else {
                    assert(whole[j] == e);
                    assert(whole[i] == pre[i]);
                    if pre[i].key == e.key {
                        lemma_dedup_has_key(d, e.key);
                        assert(has_key(pre, e.key));
                        assert(has_key(d, e.key));
                    }
                }
            }
        } else {
            assert(whole == pre);
        }
        assert forall|i: int|
            0 <= i < entries.len() && !is_reserved_key(#[trigger] entries[i].key) implies has_key(
            whole,
            entries[i].key,
        ) by {
            lemma_dedup_has_key(entries, entries[i].key);
            assert(entries[i].key == entries[i].key && 0 <= i < entries.len());
            assert(has_key(entries, entries[i].key));
        }
    }
}

/// Metadata deduplication keeps first-seen order: the surviving entries
/// stand at strictly increasing input positions, and each survivor is
/// the first occurrence of its key.
pub proof fn lemma_merged_meta_order(s: Seq<MetaV>) -> (pos: Seq<int>)
    ensures
        pos.len() == dedup_meta_spec(s).len(),
        forall|i: int| 0 <= i < pos.len() ==> 0 <= #[trigger] pos[i] < s.len(),
        forall|i: int, j: int| 0 <= i < j < pos.len() ==> #[trigger] pos[i] < #[trigger] pos[j],
        forall|i: int|
            0 <= i < pos.len() ==> s[#[trigger] pos[i]] == dedup_meta_spec(s)[i],
        forall|i: int|
            0 <= i < pos.len() ==> !has_key(s.take(#[trigger] pos[i]), s[pos[i]].key),
    decreases s.len(),
{
    if s.len() == 0 {
        Seq::empty()
    } else {
        let d = s.drop_last();
        let e = s.last();
        let pre = lemma_merged_meta_order(d);
        assert forall|p: int| 0 <= p <= d.len() implies s.take(p) == d.take(p) by {
            assert(s.take(p) =~= d.take(p));
        }
        if !is_reserved_key(e.key) && !has_key(d, e.key) {
            let pos = pre.push(s.len() - 1);
            assert(s.take(s.len() - 1) =~= d);
            assert forall|i: int| 0 <= i < pos.len() implies s[#[trigger] pos[i]]
                == dedup_meta_spec(s)[i] by {
                if i < pre.len() {
                    assert(pos[i] == pre[i]);
                    assert(d[pre[i]] == dedup_meta_spec(d)[i]);
                    assert(s[pre[i]] == d[pre[i]]);
                } else {
                    assert(pos[i] == s.len() - 1);
                }
            }
            assert forall|i: int|
                0 <= i < pos.len() implies !has_key(s.take(#[trigger] pos[i]), s[pos[i]].key) by {
                if i < pre.len() {
                    assert(pos[i] == pre[i]);
                    assert(!has_key(d.take(pre[i]), d[pre[i]].key));
                    assert(s.take(pre[i]) == d.take(pre[i]));
                    assert(s[pre[i]] == d[pre[i]]);
                }
            }
            pos
        } else {
            let pos = pre;
            assert(dedup_meta_spec(s) == dedup_meta_spec(d));
            assert forall|i: int| 0 <= i < pos.len() implies s[#[trigger] pos[i]]
                == dedup_meta_spec(s)[i] by {
                assert(d[pos[i]] == dedup_meta_spec(d)[i]);
                assert(s[pos[i]] == d[pos[i]]);
            }
            assert forall|i: int|
                0 <= i < pos.len() implies !has_key(s.take(#[trigger] pos[i]), s[pos[i]].key) by {
                assert(!has_key(d.take(pos[i]), d[pos[i]].key));
                assert(s.take(pos[i]) == d.take(pos[i]));
                assert(s[pos[i]] == d[pos[i]]);
            }
            pos
        }
    }
}


/// A shard set of fewer than two files needs no merge: the model is
/// already consolidated and no output file is to be written.
pub fn needs_merge(shard_count: usize) -> (r: bool)
    ensures
        r == (shard_count >= 2),
{
    shard_count >= 2
}

/// The tensor union is sound: the surviving names are pairwise
/// distinct, and every input name survives.
pub proof fn lemma_merged_tensors_sound(ts: Seq<(TensorV, int)>)
    ensures
        forall|i: int, j: int|
            0 <= i < j < dedup_tensors_spec(ts).len() ==> #[trigger] dedup_tensors_spec(
                ts,
            )[i].0.name != #[trigger] dedup_tensors_spec(ts)[j].0.name,
        forall|i: int|
            0 <= i < ts.len() ==> has_name(dedup_tensors_spec(ts), #[trigger] ts[i].0.name),
    decreases ts.len(),
{
    if ts.len() == 0 {
    } else {
        let d = ts.drop_last();
        let e = ts.last();
        lemma_merged_tensors_sound(d);
        let pre = dedup_tensors_spec(d);
        let whole = dedup_tensors_spec(ts);
        if !has_name(d, e.0.name) {
            assert(whole == pre.push(e));
            assert forall|i: int, j: int| 0 <= i < j < whole.len() implies #[trigger] whole[i].0.name
                != #[trigger] whole[j].0.name by {
                if j < pre.len() {
                    assert(whole[i] == pre[i] && whole[j] == pre[j]);
                } else {
                    assert(whole[j] == e);
                    assert(whole[i] == pre[i]);
                    if pre[i].0.name == e.0.name {
                        lemma_dedup_has_name(d, e.0.name);
                        assert(has_name(pre, e.0.name));
                        assert(has_name(d, e.0.name));
                    }
                }
            }
        } else {
            assert(whole == pre);
        }
        assert forall|i: int| 0 <= i < ts.len() implies has_name(
            whole,
            #[trigger] ts[i].0.name,
        ) by {
            lemma_dedup_has_name(ts, ts[i].0.name);
            assert(has_name(ts, ts[i].0.name));
        }
    }
}

/// The tensor union keeps first-seen order: the surviving records stand
/// at strictly increasing input positions, and each survivor is the
/// first occurrence of its name, so the first occurrence wins.
pub proof fn lemma_merged_tensors_order(s: Seq<(TensorV, int)>) -> (pos: Seq<int>)
    ensures
        pos.len() == dedup_tensors_spec(s).len(),
        forall|i: int| 0 <= i < pos.len() ==> 0 <= #[trigger] pos[i] < s.len(),
        forall|i: int, j: int| 0 <= i < j < pos.len() ==> #[trigger] pos[i] < #[trigger] pos[j],
        forall|i: int| 0 <= i < pos.len() ==> s[#[trigger] pos[i]] == dedup_tensors_spec(s)[i],
        forall|i: int|
            0 <= i < pos.len() ==> !has_name(s.take(#[trigger] pos[i]), s[pos[i]].0.name),
    decreases s.len(),
{
    if s.len() == 0 {
        Seq::empty()
    } else {
        let d = s.drop_last();
        let e = s.last();
        let pre = lemma_merged_tensors_order(d);
        assert forall|p: int| 0 <= p <= d.len() implies s.take(p) == d.take(p) by {
            assert(s.take(p) =~= d.take(p));
        }
        if !has_name(d, e.0.name) {
            let pos = pre.push(s.len() - 1);
            assert(s.take(s.len() - 1) =~= d);
            assert forall|i: int| 0 <= i < pos.len() implies s[#[trigger] pos[i]]
                == dedup_tensors_spec(s)[i] by {
                if i < pre.len() {
                    assert(pos[i] == pre[i]);
                    assert(d[pre[i]] == dedup_tensors_spec(d)[i]);
                    assert(s[pre[i]] == d[pre[i]]);
                } else {
                    assert(pos[i] == s.len() - 1);
                }
            }
            assert forall|i: int|
                0 <= i < pos.len() implies !has_name(
                s.take(#[trigger] pos[i]),
                s[pos[i]].0.name,
            ) by {
                if i < pre.len() {
                    assert(pos[i] == pre[i]);
                    assert(!has_name(d.take(pre[i]), d[pre[i]].0.name));
                    assert(s.take(pre[i]) == d.take(pre[i]));
                    assert(s[pre[i]] == d[pre[i]]);
                }
            }
            pos
        } else {
            let pos = pre;
            assert(dedup_tensors_spec(s) == dedup_tensors_spec(d));
            assert forall|i: int| 0 <= i < pos.len() implies s[#[trigger] pos[i]]
                == dedup_tensors_spec(s)[i] by {
                assert(d[pos[i]] == dedup_tensors_spec(d)[i]);
                assert(s[pos[i]] == d[pos[i]]);
            }
            assert forall|i: int|
                0 <= i < pos.len() implies !has_name(
                s.take(#[trigger] pos[i]),
                s[pos[i]].0.name,
            ) by {
                assert(!has_name(d.take(pos[i]), d[pos[i]].0.name));
                assert(s.take(pos[i]) == d.take(pos[i]));
                assert(s[pos[i]] == d[pos[i]]);
            }
            pos
        }
    }
}

} // verus!
