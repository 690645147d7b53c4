use vstd::prelude::*;
use vstd::utf8::encode_utf8;
use crate::json::{dec_digits, false_bytes, null_bytes, true_bytes, u64_to_dec};
use crate::models::{JVal, JsonVal};
use vstd::string::StrSliceExecFns;

verus! {

// ---------------------------------------------------------------------------
// Primary index: id -> (file offset, payload length)
// ---------------------------------------------------------------------------

/// In-memory primary index of one segment.
pub struct PrimaryIndex {
    pub entries: Vec<(u64, (u64, u32))>,
}

pub open spec fn keys_unique(s: Seq<(u64, (u64, u32))>) -> bool {
    forall|i: int, j: int| 0 <= i < j < s.len() ==> s[i].0 != s[j].0
}

/// Lookup by first match; with unique keys, the only match.
pub open spec fn idx_get(s: Seq<(u64, (u64, u32))>, id: u64) -> Option<(u64, u32)>
    decreases s.len(),
{
    if s.len() == 0 {
        None
    } else if s[0].0 == id {
        Some(s[0].1)
    } else {
        idx_get(s.drop_first(), id)
    }
}

pub proof fn lemma_idx_get_none_iff(s: Seq<(u64, (u64, u32))>, id: u64)
    ensures
        (idx_get(s, id) is None) <==> (forall|i: int| 0 <= i < s.len() ==> (#[trigger] s[i]).0
            != id),
    decreases s.len(),
{
    if s.len() > 0 {
        lemma_idx_get_none_iff(s.drop_first(), id);
        assert(forall|i: int|
            0 <= i < s.drop_first().len() ==> #[trigger] s.drop_first()[i] == s[i + 1]);
        if s[0].0 != id && (idx_get(s.drop_first(), id) is None) {
            assert forall|i: int| 0 <= i < s.len() implies (#[trigger] s[i]).0 != id by {
                if i > 0 {
                    assert(s[i] == s.drop_first()[i - 1]);
                }
            }
        }
    }
}

pub proof fn lemma_idx_get_update(s: Seq<(u64, (u64, u32))>, q: int, id: u64, v: (u64, u32))
    requires
        0 <= q < s.len(),
        s[q].0 == id,
        keys_unique(s),
    ensures
        forall|k: u64| #[trigger]
            idx_get(s.update(q, (id, v)), k) == (if k == id {
                Some(v)
            } else {
                idx_get(s, k)
            }),
        keys_unique(s.update(q, (id, v))),
    decreases s.len(),
{
    let s2 = s.update(q, (id, v));
    assert(s2.len() == s.len());
    assert(keys_unique(s2)) by {
        assert(forall|i: int| 0 <= i < s.len() ==> (#[trigger] s2[i]).0 == s[i].0);
    }
    if q == 0 {
        assert(s2[0] == (id, v));
        assert(s2.drop_first() =~= s.drop_first());
        assert forall|k: u64| #[trigger]
            idx_get(s2, k) == (if k == id {
                Some(v)
            } else {
                idx_get(s, k)
            }) by {
            if k != id {
                assert(idx_get(s2, k) == idx_get(s2.drop_first(), k));
            }
        }
    } else {
        assert(s2[0] == s[0]);
        assert(s2.drop_first() =~= s.drop_first().update(q - 1, (id, v)));
        assert(s.drop_first()[q - 1].0 == id);
        assert(keys_unique(s.drop_first())) by {
            assert(forall|i: int|
                0 <= i < s.drop_first().len() ==> #[trigger] s.drop_first()[i] == s[i + 1]);
        }
        lemma_idx_get_update(s.drop_first(), q - 1, id, v);
        assert(s[0].0 != id);
        assert forall|k: u64| #[trigger]
            idx_get(s2, k) == (if k == id {
                Some(v)
            } else {
                idx_get(s, k)
            }) by {
            if s2[0].0 == k {
                assert(k != id);
            } else {
                assert(idx_get(s2, k) == idx_get(s2.drop_first(), k));
            }
        }
    }
}

pub proof fn lemma_idx_get_push(s: Seq<(u64, (u64, u32))>, id: u64, v: (u64, u32))
    requires
        idx_get(s, id) is None,
        keys_unique(s),
    ensures
        forall|k: u64| #[trigger]
            idx_get(s.push((id, v)), k) == (if k == id {
                Some(v)
            } else {
                idx_get(s, k)
            }),
        keys_unique(s.push((id, v))),
    decreases s.len(),
{
    lemma_idx_get_none_iff(s, id);
    assert(keys_unique(s.push((id, v)))) by {
        assert(forall|i: int| 0 <= i < s.len() ==> #[trigger] s.push((id, v))[i] == s[i]);
        assert(s.push((id, v))[s.len() as int] == (id, v));
    }
    if s.len() == 0 {
        assert forall|k: u64| #[trigger]
            idx_get(s.push((id, v)), k) == (if k == id {
                Some(v)
            } else {
                idx_get(s, k)
            }) by {
            assert(s.push((id, v))[0] == (id, v));
            assert(s.push((id, v)).drop_first() =~= s);
        }
    } else {
        assert(s.push((id, v))[0] == s[0]);
        assert(s.push((id, v)).drop_first() =~= s.drop_first().push((id, v)));
        assert(keys_unique(s.drop_first())) by {
            assert(forall|i: int|
                0 <= i < s.drop_first().len() ==> #[trigger] s.drop_first()[i] == s[i + 1]);
        }
        lemma_idx_get_push(s.drop_first(), id, v);
        assert forall|k: u64| #[trigger]
            idx_get(s.push((id, v)), k) == (if k == id {
                Some(v)
            } else {
                idx_get(s, k)
            }) by {
            if s[0].0 != k {
                assert(idx_get(s.push((id, v)), k) == idx_get(s.drop_first().push((id, v)), k));
                assert(idx_get(s, k) == idx_get(s.drop_first(), k));
            }
        }
    }
}

impl PrimaryIndex {
    pub open spec fn wf(&self) -> bool {
        keys_unique(self.entries@)
    }

    pub open spec fn spec_get(&self, id: u64) -> Option<(u64, u32)> {
        idx_get(self.entries@, id)
    }

    /// The ids present, in index order.
    pub open spec fn key_seq(&self) -> Seq<u64> {
        self.entries@.map(|i: int, p: (u64, (u64, u32))| p.0)
    }

    pub fn new() -> (r: Self)
        ensures
            r.wf(),
            forall|id: u64| r.spec_get(id) is None,
            r.entries@.len() == 0,
    {
        PrimaryIndex { entries: Vec::new() }
    }

    pub fn get(&self, id: u64) -> (r: Option<(u64, u32)>)
        ensures
            r == self.spec_get(id),
    {
        proof {
            assert(self.entries@.skip(0) =~= self.entries@);
        }
        let mut q: usize = 0;
        while q < self.entries.len()
            invariant
                0 <= q <= self.entries@.len(),
                idx_get(self.entries@, id) == idx_get(self.entries@.skip(q as int), id),
            decreases self.entries@.len() - q,
        {
            proof {
                assert(self.entries@.skip(q as int)[0] == self.entries@[q as int]);
                assert(self.entries@.skip(q as int).drop_first() =~= self.entries@.skip(
                    q as int + 1,
                ));
            }
            if self.entries[q].0 == id {
                return Some(self.entries[q].1);
            }
            q += 1;
        }
        proof {
            assert(self.entries@.skip(self.entries@.len() as int) =~= Seq::<
                (u64, (u64, u32)),
            >::empty());
        }
        None
    }

    /// Insert or overwrite: the latest entry for an id wins.
    pub fn insert(&mut self, id: u64, v: (u64, u32))
        requires
            old(self).wf(),
        ensures
            final(self).wf(),
            forall|k: u64| #[trigger]
                final(self).spec_get(k) == (if k == id {
                    Some(v)
                } else {
                    old(self).spec_get(k)
                }),
            final(self).key_seq() == (if old(self).spec_get(id) is Some {
                old(self).key_seq()
            } else {
                old(self).key_seq().push(id)
            }),
    {
        let ghost s0 = self.entries@;
        let mut q: usize = 0;
        while q < self.entries.len()
            invariant
                0 <= q <= self.entries@.len(),
                self.entries@ == s0,
                s0 == old(self).entries@,
                keys_unique(s0),
                forall|i: int| 0 <= i < q ==> (#[trigger] s0[i]).0 != id,
            decreases self.entries@.len() - q,
        {
            if self.entries[q].0 == id {
                let _replaced = self.entries.remove(q);
                self.entries.insert(q, (id, v));
                proof {
                    assert(self.entries@ =~= s0.update(q as int, (id, v)));
                    lemma_idx_get_update(s0, q as int, id, v);
                    assert(idx_get(s0, id) is Some) by {
                        lemma_idx_get_none_iff(s0, id);
                    }
                    assert(self.key_seq() =~= old(self).key_seq()) by {
                        assert(forall|i: int|
                            0 <= i < s0.len() ==> (#[trigger] s0.update(q as int, (id, v))[i]).0
                                == s0[i].0);
                    }
                }
                return ;
            }
            q += 1;
        }
        proof {
            lemma_idx_get_none_iff(s0, id);
            lemma_idx_get_push(s0, id, v);
        }
        self.entries.push((id, v));
        proof {
            assert(final(self).key_seq() =~= old(self).key_seq().push(id));
        }
    }
}

// ---------------------------------------------------------------------------
// Secondary index: field name -> stringified value -> ids
// ---------------------------------------------------------------------------

/// The ids recorded under one stringified value.
pub struct ValueBucket {
    pub value: Vec<u8>,
    pub ids: Vec<u64>,
}

/// The buckets of one indexed field.
pub struct FieldIndex {
    pub field: String,
    pub buckets: Vec<ValueBucket>,
}

/// Per-segment secondary index.
pub struct SecIndex {
    pub fields: Vec<FieldIndex>,
}

pub open spec fn bucket_values_unique(bs: Seq<ValueBucket>) -> bool {
    forall|i: int, j: int| 0 <= i < j < bs.len() ==> bs[i].value@ != bs[j].value@
}

pub open spec fn field_names_unique(fs: Seq<FieldIndex>) -> bool {
    forall|i: int, j: int| 0 <= i < j < fs.len() ==> fs[i].field@ != fs[j].field@
}

/// Ids under a value in a bucket list.
pub open spec fn buckets_ids(bs: Seq<ValueBucket>, v: Seq<u8>) -> Seq<u64>
    decreases bs.len(),
{
    if bs.len() == 0 {
        Seq::<u64>::empty()
    } else if bs[0].value@ == v {
        bs[0].ids@
    } else {
        buckets_ids(bs.drop_first(), v)
    }
}

/// Ids under a (field, value) pair in a field list.
pub open spec fn fields_ids(fs: Seq<FieldIndex>, f: Seq<char>, v: Seq<u8>) -> Seq<u64>
    decreases fs.len(),
{
    if fs.len() == 0 {
        Seq::<u64>::empty()
    } else if fs[0].field@ == f {
        buckets_ids(fs[0].buckets@, v)
    } else {
        fields_ids(fs.drop_first(), f, v)
    }
}

/// Byte-for-byte vector comparison.
pub fn bytes_eq(a: &Vec<u8>, b: &Vec<u8>) -> (r: bool)
    ensures
        r == (a@ == b@),
{
    if a.len() != b.len() {
        return false;
    }
    let mut q: usize = 0;
    while q < a.len()
        invariant
            0 <= q <= a@.len(),
            a@.len() == b@.len(),
            forall|i: int| 0 <= i < q ==> a@[i] == b@[i],
        decreases a@.len() - q,
    {
        if a[q] != b[q] {
            return false;
        }
        q += 1;
    }
    proof {
        assert(a@ =~= b@);
    }
    true
}

fn copy_ids(s: &Vec<u64>) -> (r: Vec<u64>)
    ensures
        r@ == s@,
{
    let mut out: Vec<u64> = Vec::new();
    let mut q: usize = 0;
    while q < s.len()
        invariant
            0 <= q <= s@.len(),
            out@ == s@.take(q as int),
        decreases s@.len() - q,
    {
        proof {
            assert(s@.take(q as int + 1) =~= s@.take(q as int).push(s@[q as int]));
        }
        out.push(s[q]);
        q += 1;
    }
    proof {
        assert(s@.take(s@.len() as int) =~= s@);
    }
    out
}

impl SecIndex {
    pub open spec fn wf(&self) -> bool {
        &&& field_names_unique(self.fields@)
        &&& forall|i: int|
            0 <= i < self.fields@.len() ==> bucket_values_unique(
                (#[trigger] self.fields@[i]).buckets@,
            )
    }

    /// The ids recorded under a field and stringified value, oldest first.
    pub open spec fn spec_ids(&self, f: Seq<char>, v: Seq<u8>) -> Seq<u64> {
        fields_ids(self.fields@, f, v)
    }

    pub fn new() -> (r: Self)
        ensures
            r.wf(),
            forall|f: Seq<char>, v: Seq<u8>| r.spec_ids(f, v) == Seq::<u64>::empty(),
    {
        SecIndex { fields: Vec::new() }
    }

    /// The ids under `(field, value)`, as a fresh vector.
    pub fn lookup(&self, field: &String, value: &Vec<u8>) -> (r: Vec<u64>)
        ensures
            r@ == self.spec_ids(field@, value@),
    {
        proof {
            assert(self.fields@.skip(0) =~= self.fields@);
        }
        let mut q: usize = 0;
        while q < self.fields.len()
            invariant
                0 <= q <= self.fields@.len(),
                self.spec_ids(field@, value@) == fields_ids(
                    self.fields@.skip(q as int),
                    field@,
                    value@,
                ),
            decreases self.fields@.len() - q,
        {
            proof {
                assert(self.fields@.skip(q as int)[0] == self.fields@[q as int]);
                assert(self.fields@.skip(q as int).drop_first() =~= self.fields@.skip(
                    q as int + 1,
                ));
            }
            if self.fields[q].field.eq(field) {
                let bs = &self.fields[q].buckets;
                proof {
                    assert(bs@.skip(0) =~= bs@);
                }
                let mut w: usize = 0;
                while w < bs.len()
                    invariant
                        0 <= w <= bs@.len(),
                        self.spec_ids(field@, value@) == buckets_ids(bs@, value@),
                        bs == &self.fields[q as int].buckets,
                        buckets_ids(bs@, value@) == buckets_ids(bs@.skip(w as int), value@),
                    decreases bs@.len() - w,
                {
                    proof {
                        assert(bs@.skip(w as int)[0] == bs@[w as int]);
                        assert(bs@.skip(w as int).drop_first() =~= bs@.skip(w as int + 1));
                    }
                    if bytes_eq(&bs[w].value, value) {
                        return copy_ids(&bs[w].ids);
                    }
                    w += 1;
                }
                proof {
                    assert(bs@.skip(bs@.len() as int) =~= Seq::<ValueBucket>::empty());
                }
                return Vec::new();
            }
            q += 1;
        }
        proof {
            assert(self.fields@.skip(self.fields@.len() as int) =~= Seq::<FieldIndex>::empty());
        }
        Vec::new()
    }
}

} // verus!

verus! {

// ---------------------------------------------------------------------------
// Secondary index updates
// ---------------------------------------------------------------------------

pub proof fn lemma_buckets_ids_absent(bs: Seq<ValueBucket>, v: Seq<u8>)
    requires
        forall|w: int| 0 <= w < bs.len() ==> (#[trigger] bs[w]).value@ != v,
    ensures
        buckets_ids(bs, v) == Seq::<u64>::empty(),
    decreases bs.len(),
{
    if bs.len() > 0 {
        assert(forall|w: int|
            0 <= w < bs.drop_first().len() ==> #[trigger] bs.drop_first()[w] == bs[w + 1]);
        lemma_buckets_ids_absent(bs.drop_first(), v);
    }
}

pub proof fn lemma_fields_ids_absent(fs: Seq<FieldIndex>, f: Seq<char>, v: Seq<u8>)
    requires
        forall|w: int| 0 <= w < fs.len() ==> (#[trigger] fs[w]).field@ != f,
    ensures
        fields_ids(fs, f, v) == Seq::<u64>::empty(),
    decreases fs.len(),
{
    if fs.len() > 0 {
        assert(forall|w: int|
            0 <= w < fs.drop_first().len() ==> #[trigger] fs.drop_first()[w] == fs[w + 1]);
        lemma_fields_ids_absent(fs.drop_first(), f, v);
    }
}

pub proof fn lemma_buckets_update(bs: Seq<ValueBucket>, w: int, nb: ValueBucket)
    requires
        0 <= w < bs.len(),
        nb.value@ == bs[w].value@,
        bucket_values_unique(bs),
    ensures
        bucket_values_unique(bs.update(w, nb)),
        forall|v: Seq<u8>| #[trigger]
            buckets_ids(bs.update(w, nb), v) == (if v == bs[w].value@ {
                nb.ids@
            } else {
                buckets_ids(bs, v)
            }),
    decreases bs.len(),
{
    let bs2 = bs.update(w, nb);
    assert(bucket_values_unique(bs2)) by {
        assert(forall|i: int| 0 <= i < bs.len() ==> (#[trigger] bs2[i]).value@ == bs[i].value@);
    }
    if w == 0 {
        assert(bs2[0] == nb);
        assert(bs2.drop_first() =~= bs.drop_first());
        assert forall|v: Seq<u8>| #[trigger]
            buckets_ids(bs2, v) == (if v == bs[0].value@ {
                nb.ids@
            } else {
                buckets_ids(bs, v)
            }) by {
            if v != bs[0].value@ {
                assert(buckets_ids(bs2, v) == buckets_ids(bs2.drop_first(), v));
            }
        }
    } else {
        assert(bs2[0] == bs[0]);
        assert(bs2.drop_first() =~= bs.drop_first().update(w - 1, nb));
        assert(bucket_values_unique(bs.drop_first())) by {
            assert(forall|i: int|
                0 <= i < bs.drop_first().len() ==> #[trigger] bs.drop_first()[i] == bs[i + 1]);
        }
        assert(bs.drop_first()[w - 1] == bs[w]);
        lemma_buckets_update(bs.drop_first(), w - 1, nb);
        assert(bs[0].value@ != bs[w].value@);
        assert forall|v: Seq<u8>| #[trigger]
            buckets_ids(bs2, v) == (if v == bs[w].value@ {
                nb.ids@
            } else {
                buckets_ids(bs, v)
            }) by {
            if bs[0].value@ != v {
                assert(buckets_ids(bs2, v) == buckets_ids(bs2.drop_first(), v));
                assert(buckets_ids(bs, v) == buckets_ids(bs.drop_first(), v));
            }
        }
    }
}

pub proof fn lemma_buckets_push(bs: Seq<ValueBucket>, nb: ValueBucket)
    requires
        forall|w: int| 0 <= w < bs.len() ==> (#[trigger] bs[w]).value@ != nb.value@,
        bucket_values_unique(bs),
    ensures
        bucket_values_unique(bs.push(nb)),
        forall|v: Seq<u8>| #[trigger]
            buckets_ids(bs.push(nb), v) == (if v == nb.value@ {
                nb.ids@
            } else {
                buckets_ids(bs, v)
            }),
    decreases bs.len(),
{
    assert(bucket_values_unique(bs.push(nb))) by {
        assert(forall|i: int| 0 <= i < bs.len() ==> #[trigger] bs.push(nb)[i] == bs[i]);
        assert(bs.push(nb)[bs.len() as int] == nb);
    }
    if bs.len() == 0 {
        assert forall|v: Seq<u8>| #[trigger]
            buckets_ids(bs.push(nb), v) == (if v == nb.value@ {
                nb.ids@
            } else {
                buckets_ids(bs, v)
            }) by {
            assert(bs.push(nb)[0] == nb);
            assert(bs.push(nb).drop_first() =~= bs);
        }
    } else {
        assert(bs.push(nb)[0] == bs[0]);
        assert(bs.push(nb).drop_first() =~= bs.drop_first().push(nb));
        assert(bucket_values_unique(bs.drop_first())) by {
            assert(forall|i: int|
                0 <= i < bs.drop_first().len() ==> #[trigger] bs.drop_first()[i] == bs[i + 1]);
        }
        assert(forall|w: int|
            0 <= w < bs.drop_first().len() ==> (#[trigger] bs.drop_first()[w]).value@
                != nb.value@) by {
            assert(forall|i: int|
                0 <= i < bs.drop_first().len() ==> #[trigger] bs.drop_first()[i] == bs[i + 1]);
        }
        lemma_buckets_push(bs.drop_first(), nb);
        assert forall|v: Seq<u8>| #[trigger]
            buckets_ids(bs.push(nb), v) == (if v == nb.value@ {
                nb.ids@
            } else {
                buckets_ids(bs, v)
            }) by {
            if bs[0].value@ != v {
                assert(buckets_ids(bs.push(nb), v) == buckets_ids(bs.drop_first().push(nb), v));
            }
        }
    }
}

pub proof fn lemma_fields_update(fs: Seq<FieldIndex>, q: int, nf: FieldIndex)
    requires
        0 <= q < fs.len(),
        nf.field@ == fs[q].field@,
        field_names_unique(fs),
    ensures
        field_names_unique(fs.update(q, nf)),
        forall|f: Seq<char>, v: Seq<u8>| #[trigger]
            fields_ids(fs.update(q, nf), f, v) == (if f == fs[q].field@ {
                buckets_ids(nf.buckets@, v)
            } else {
                fields_ids(fs, f, v)
            }),
    decreases fs.len(),
{
    let fs2 = fs.update(q, nf);
    assert(field_names_unique(fs2)) by {
        assert(forall|i: int| 0 <= i < fs.len() ==> (#[trigger] fs2[i]).field@ == fs[i].field@);
    }
    if q == 0 {
        assert(fs2[0] == nf);
        assert(fs2.drop_first() =~= fs.drop_first());
        assert forall|f: Seq<char>, v: Seq<u8>| #[trigger]
            fields_ids(fs2, f, v) == (if f == fs[0].field@ {
                buckets_ids(nf.buckets@, v)
            } else {
                fields_ids(fs, f, v)
            }) by {
            if f != fs[0].field@ {
                assert(fields_ids(fs2, f, v) == fields_ids(fs2.drop_first(), f, v));
            }
        }
    } else {
        assert(fs2[0] == fs[0]);
        assert(fs2.drop_first() =~= fs.drop_first().update(q - 1, nf));
        assert(field_names_unique(fs.drop_first())) by {
            assert(forall|i: int|
                0 <= i < fs.drop_first().len() ==> #[trigger] fs.drop_first()[i] == fs[i + 1]);
        }
        assert(fs.drop_first()[q - 1] == fs[q]);
        lemma_fields_update(fs.drop_first(), q - 1, nf);
        assert(fs[0].field@ != fs[q].field@);
        assert forall|f: Seq<char>, v: Seq<u8>| #[trigger]
            fields_ids(fs2, f, v) == (if f == fs[q].field@ {
                buckets_ids(nf.buckets@, v)
            } else {
                fields_ids(fs, f, v)
            }) by {
            if fs[0].field@ != f {
                assert(fields_ids(fs2, f, v) == fields_ids(fs2.drop_first(), f, v));
                assert(fields_ids(fs, f, v) == fields_ids(fs.drop_first(), f, v));
            }
        }
    }
}

pub proof fn lemma_fields_push(fs: Seq<FieldIndex>, nf: FieldIndex)
    requires
        forall|w: int| 0 <= w < fs.len() ==> (#[trigger] fs[w]).field@ != nf.field@,
        field_names_unique(fs),
    ensures
        field_names_unique(fs.push(nf)),
        forall|f: Seq<char>, v: Seq<u8>| #[trigger]
            fields_ids(fs.push(nf), f, v) == (if f == nf.field@ {
                buckets_ids(nf.buckets@, v)
            } else {
                fields_ids(fs, f, v)
            }),
    decreases fs.len(),
{
    assert(field_names_unique(fs.push(nf))) by {
        assert(forall|i: int| 0 <= i < fs.len() ==> #[trigger] fs.push(nf)[i] == fs[i]);
        assert(fs.push(nf)[fs.len() as int] == nf);
    }
    if fs.len() == 0 {
        assert forall|f: Seq<char>, v: Seq<u8>| #[trigger]
            fields_ids(fs.push(nf), f, v) == (if f == nf.field@ {
                buckets_ids(nf.buckets@, v)
            } else {
                fields_ids(fs, f, v)
            }) by {
            assert(fs.push(nf)[0] == nf);
            assert(fs.push(nf).drop_first() =~= fs);
        }
    } else {
        assert(fs.push(nf)[0] == fs[0]);
        assert(fs.push(nf).drop_first() =~= fs.drop_first().push(nf));
        assert(field_names_unique(fs.drop_first())) by {
            assert(forall|i: int|
                0 <= i < fs.drop_first().len() ==> #[trigger] fs.drop_first()[i] == fs[i + 1]);
        }
        assert(forall|w: int|
            0 <= w < fs.drop_first().len() ==> (#[trigger] fs.drop_first()[w]).field@
                != nf.field@) by {
            assert(forall|i: int|
                0 <= i < fs.drop_first().len() ==> #[trigger] fs.drop_first()[i] == fs[i + 1]);
        }
        lemma_fields_push(fs.drop_first(), nf);
        assert forall|f: Seq<char>, v: Seq<u8>| #[trigger]
            fields_ids(fs.push(nf), f, v) == (if f == nf.field@ {
                buckets_ids(nf.buckets@, v)
            } else {
                fields_ids(fs, f, v)
            }) by {
            if fs[0].field@ != f {
                assert(fields_ids(fs.push(nf), f, v) == fields_ids(
                    fs.drop_first().push(nf),
                    f,
                    v,
                ));
            }
        }
    }
}

impl SecIndex {
    /// Records `id` under `(field, value)`, keeping all earlier entries.
    pub fn add(&mut self, field: &String, value: Vec<u8>, id: u64)
        requires
            old(self).wf(),
        ensures
            final(self).wf(),
            forall|f: Seq<char>, v: Seq<u8>| #[trigger]
                final(self).spec_ids(f, v) == (if f == field@ && v == value@ {
                    old(self).spec_ids(f, v).push(id)
                } else {
                    old(self).spec_ids(f, v)
                }),
    {
        let ghost fs0 = self.fields@;
        let ghost v0 = value@;
        let mut q: usize = 0;
        while q < self.fields.len()
            invariant
                0 <= q <= self.fields@.len(),
                self.fields@ == fs0,
                fs0 == old(self).fields@,
                old(self).wf(),
                value@ == v0,
                forall|i: int| 0 <= i < q ==> (#[trigger] fs0[i]).field@ != field@,
            decreases self.fields@.len() - q,
        {
            if self.fields[q].field.eq(field) {
                let mut fi = self.fields.remove(q);
                let ghost bs0 = fi.buckets@;
                proof {
                    assert(bucket_values_unique(bs0));
                }
                let mut w: usize = 0;
                while w < fi.buckets.len()
                    invariant
                        0 <= w <= fi.buckets@.len(),
                        fi.buckets@ == bs0,
                        value@ == v0,
                        q < fs0.len(),
                        fs0 == old(self).fields@,
                        old(self).wf(),
                        fs0[q as int].field@ == field@,
                        fi.field == fs0[q as int].field,
                        bs0 == fs0[q as int].buckets@,
                        self.fields@ == fs0.remove(q as int),
                        forall|i: int| 0 <= i < w ==> (#[trigger] bs0[i]).value@ != v0,
                    decreases fi.buckets@.len() - w,
                {
                    if bytes_eq(&fi.buckets[w].value, &value) {
                        let mut vb = fi.buckets.remove(w);
                        vb.ids.push(id);
                        let ghost nb = vb;
                        fi.buckets.insert(w, vb);
                        proof {
                            assert(fi.buckets@ =~= bs0.update(w as int, nb));
                            assert(nb.value@ == bs0[w as int].value@);
                            lemma_buckets_update(bs0, w as int, nb);
                            assert(nb.ids@ == buckets_ids(bs0, v0).push(id)) by {
                                lemma_buckets_at(bs0, w as int);
                            }
                        }
                        self.fields.insert(q, fi);
                        proof {
                            assert(self.fields@ =~= fs0.update(q as int, self.fields@[q as int]));
                            lemma_fields_update(fs0, q as int, self.fields@[q as int]);
                            assert(old(self).spec_ids(field@, v0) == buckets_ids(bs0, v0)) by {
                                lemma_fields_at(fs0, q as int);
                            }
                            assert forall|f: Seq<char>, v: Seq<u8>| #[trigger]
                                self.spec_ids(f, v) == (if f == field@ && v == v0 {
                                    old(self).spec_ids(f, v).push(id)
                                } else {
                                    old(self).spec_ids(f, v)
                                }) by {
                                if f == fs0[q as int].field@ {
                                    lemma_fields_at(fs0, q as int);
                                }
                            }
                        }
                        return ;
                    }
                    w += 1;
                }
                // new value bucket for this field
                let mut ids: Vec<u64> = Vec::new();
                ids.push(id);
                let nb = ValueBucket { value: value, ids: ids };
                fi.buckets.push(nb);
                proof {
                    let ghost nbv = fi.buckets@.last();
                    assert(fi.buckets@ =~= bs0.push(nbv));
                    lemma_buckets_push(bs0, nbv);
                    lemma_buckets_ids_absent(bs0, v0);
                }
                self.fields.insert(q, fi);
                proof {
                    assert(self.fields@ =~= fs0.update(q as int, self.fields@[q as int]));
                    lemma_fields_update(fs0, q as int, self.fields@[q as int]);
                    assert(old(self).spec_ids(field@, v0) == buckets_ids(bs0, v0)) by {
                        lemma_fields_at(fs0, q as int);
                    }
                    assert(Seq::<u64>::empty().push(id) =~= seq![id]);
                    assert forall|f: Seq<char>, v: Seq<u8>| #[trigger]
                        self.spec_ids(f, v) == (if f == field@ && v == v0 {
                            old(self).spec_ids(f, v).push(id)
                        } else {
                            old(self).spec_ids(f, v)
                        }) by {
                        if f == fs0[q as int].field@ {
                            lemma_fields_at(fs0, q as int);
                        }
                    }
                }
                return ;
            }
            q += 1;
        }
        // new field
        let mut ids: Vec<u64> = Vec::new();
        ids.push(id);
        let nb = ValueBucket { value: value, ids: ids };
        let mut bs: Vec<ValueBucket> = Vec::new();
        bs.push(nb);
        let nf = FieldIndex { field: field.clone(), buckets: bs };
        self.fields.push(nf);
        proof {
            let ghost nfv = self.fields@.last();
            assert(self.fields@ =~= fs0.push(nfv));
            lemma_fields_push(fs0, nfv);
            lemma_fields_ids_absent(fs0, field@, v0);
            assert forall|f: Seq<char>, v: Seq<u8>| #[trigger]
                self.spec_ids(f, v) == (if f == field@ && v == v0 {
                    old(self).spec_ids(f, v).push(id)
                } else {
                    old(self).spec_ids(f, v)
                }) by {
                if f == field@ {
                    lemma_fields_ids_absent(fs0, f, v);
                    if v == v0 {
                        assert(buckets_ids(nfv.buckets@, v) == nfv.buckets@[0].ids@) by {
                            assert(nfv.buckets@[0].value@ == v0);
                        }
                        assert(Seq::<u64>::empty().push(id) =~= seq![id]);
                        assert(nfv.buckets@[0].ids@ =~= seq![id]);
                    } else {
                        assert(nfv.buckets@.len() == 1);
                        assert(nfv.buckets@[0].value@ == v0);
                        assert(nfv.buckets@.drop_first() =~= Seq::<ValueBucket>::empty());
                        assert(buckets_ids(Seq::<ValueBucket>::empty(), v) == Seq::<
                            u64,
                        >::empty());
                        assert(buckets_ids(nfv.buckets@, v) == Seq::<u64>::empty());
                    }
                }
            }
        }
    }
}

/// Lookup at a unique field's own position reads that field's buckets.
pub proof fn lemma_fields_at(fs: Seq<FieldIndex>, q: int)
    requires
        0 <= q < fs.len(),
        field_names_unique(fs),
    ensures
        forall|v: Seq<u8>| #[trigger]
            fields_ids(fs, fs[q].field@, v) == buckets_ids(fs[q].buckets@, v),
    decreases fs.len(),
{
    if q == 0 {
    } else {
        assert(fs[0].field@ != fs[q].field@);
        assert(field_names_unique(fs.drop_first())) by {
            assert(forall|i: int|
                0 <= i < fs.drop_first().len() ==> #[trigger] fs.drop_first()[i] == fs[i + 1]);
        }
        assert(fs.drop_first()[q - 1] == fs[q]);
        lemma_fields_at(fs.drop_first(), q - 1);
        assert forall|v: Seq<u8>| #[trigger]
            fields_ids(fs, fs[q].field@, v) == buckets_ids(fs[q].buckets@, v) by {
            assert(fields_ids(fs, fs[q].field@, v) == fields_ids(
                fs.drop_first(),
                fs[q].field@,
                v,
            ));
        }
    }
}

/// Lookup at a unique value's own position reads that bucket's ids.
pub proof fn lemma_buckets_at(bs: Seq<ValueBucket>, w: int)
    requires
        0 <= w < bs.len(),
        bucket_values_unique(bs),
    ensures
        buckets_ids(bs, bs[w].value@) == bs[w].ids@,
    decreases bs.len(),
{
    if w == 0 {
    } else {
        assert(bs[0].value@ != bs[w].value@);
        assert(bucket_values_unique(bs.drop_first())) by {
            assert(forall|i: int|
                0 <= i < bs.drop_first().len() ==> #[trigger] bs.drop_first()[i] == bs[i + 1]);
        }
        assert(bs.drop_first()[w - 1] == bs[w]);
        lemma_buckets_at(bs.drop_first(), w - 1);
    }
}

// ---------------------------------------------------------------------------
// Stringified values
// ---------------------------------------------------------------------------

/// The secondary-index key of a value: strings keep their raw text, other
/// values use their JSON text.
pub open spec fn value_key(v: JVal) -> Seq<u8> {
    match v {
        JVal::Null => null_bytes(),
        JVal::Bool(b) => if b {
            true_bytes()
        } else {
            false_bytes()
        },
        JVal::UInt(n) => dec_digits(n as nat),
        JVal::Num(t) => encode_utf8(t),
        JVal::Str(s) => encode_utf8(s),
        JVal::Nested(t) => encode_utf8(t),
    }
}

pub fn value_key_bytes(v: &JsonVal) -> (r: Vec<u8>)
    ensures
        r@ == value_key(v@),
{
    match v {
        JsonVal::Null => {
            let mut out: Vec<u8> = Vec::new();
            out.push(110);
            out.push(117);
            out.push(108);
            out.push(108);
            proof {
                assert(out@ =~= null_bytes());
            }
            out
        },
        JsonVal::Bool(b) => {
            let mut out: Vec<u8> = Vec::new();
            if *b {
                out.push(116);
                out.push(114);
                out.push(117);
                out.push(101);
                proof {
                    assert(out@ =~= true_bytes());
                }
            } else {
                out.push(102);
                out.push(97);
                out.push(108);
                out.push(115);
                out.push(101);
                proof {
                    assert(out@ =~= false_bytes());
                }
            }
            out
        },
        JsonVal::UInt(n) => u64_to_dec(*n),
        JsonVal::Num(t) => t.as_str().as_bytes_vec(),
        JsonVal::Str(s) => s.as_str().as_bytes_vec(),
        JsonVal::Nested(t) => t.as_str().as_bytes_vec(),
    }
}

} // verus!

verus! {

/// Lookup of a present key reads that key's own entry.
pub proof fn lemma_idx_at(s: Seq<(u64, (u64, u32))>, q: int)
    requires
        0 <= q < s.len(),
        keys_unique(s),
    ensures
        idx_get(s, s[q].0) == Some(s[q].1),
    decreases s.len(),
{
    if q == 0 {
    } else {
        assert(s[0].0 != s[q].0);
        assert(keys_unique(s.drop_first())) by {
            assert(forall|i: int|
                0 <= i < s.drop_first().len() ==> #[trigger] s.drop_first()[i] == s[i + 1]);
        }
        assert(s.drop_first()[q - 1] == s[q]);
        lemma_idx_at(s.drop_first(), q - 1);
    }
}

} // verus!

verus! {

/// The key list of a well-formed index is duplicate-free and carries
/// exactly the ids that look up successfully.
pub proof fn lemma_key_seq_complete(s: Seq<(u64, (u64, u32))>, id: u64)
    requires
        keys_unique(s),
    ensures
        (idx_get(s, id) is Some) <==> (exists|i: int|
            0 <= i < s.len() && (#[trigger] s[i]).0 == id),
{
    lemma_idx_get_none_iff(s, id);
    if exists|i: int| 0 <= i < s.len() && (#[trigger] s[i]).0 == id {
        let i = choose|i: int| 0 <= i < s.len() && (#[trigger] s[i]).0 == id;
        lemma_idx_at(s, i);
    }
}

} // verus!
