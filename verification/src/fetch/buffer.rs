//! The in-memory tail of each partition: raw record batches as produced
//! (their CRCs intact) with the offsets each covers, kept until flushed to a
//! segment, at most the last 100.
use vstd::prelude::*;
use crate::text::str_eq;
use crate::consumer_group::group::{key_index, key_insert, key_lookup, keys_unique, lemma_key_index, lemma_key_insert_unique};

verus! {

/// How many batches a partition buffer keeps.
pub const MAX_BUFFERED_BATCHES: usize = 100;

/// What a buffered batch covers.
#[derive(Clone, Copy, Debug)]
pub struct BatchMetadata {
    pub base_offset: i64,
    pub last_offset: i64,
    pub record_count: i32,
    pub size_bytes: usize,
}

/// A buffered batch as plain values: its bytes, base offset, last offset,
/// record count and size.
pub type BatchView = (Seq<u8>, (i64, i64, i32, usize));

/// A partition's buffered batches and offsets.
#[derive(Debug)]
pub struct PartitionBuffer {
    pub raw_batches: Vec<Vec<u8>>,
    pub batch_metadata: Vec<BatchMetadata>,
    pub base_offset: i64,
    pub high_watermark: i64,
    pub flushed_offset: i64,
    pub min_offset_in_buffer: i64,
}

pub open spec fn meta_view(m: BatchMetadata) -> (i64, i64, i32, usize) {
    (m.base_offset, m.last_offset, m.record_count, m.size_bytes)
}

/// The batches of a buffer, bytes paired with what they cover.
pub open spec fn batches_of(b: PartitionBuffer) -> Seq<BatchView> {
    Seq::new(b.raw_batches@.len(), |i: int| (b.raw_batches@[i]@, meta_view(b.batch_metadata@[i])))
}

/// A buffer as plain values: batches, base offset, high watermark, flushed
/// offset, lowest offset held.
pub open spec fn buffer_view(b: PartitionBuffer) -> (Seq<BatchView>, i64, i64, i64, i64) {
    (batches_of(b), b.base_offset, b.high_watermark, b.flushed_offset, b.min_offset_in_buffer)
}

/// Bytes and metadata line up.
pub open spec fn buffer_wf(b: PartitionBuffer) -> bool {
    b.raw_batches@.len() == b.batch_metadata@.len()
}

/// Whether some batch has base offset `base`.
pub open spec fn has_batch_at(batches: Seq<BatchView>, base: i64) -> bool {
    exists|i: int| 0 <= i < batches.len() && (#[trigger] batches[i]).1.0 == base
}

/// The buffer a partition gets on its first batch.
pub open spec fn fresh_buffer(base: i64, hw: i64) -> (Seq<BatchView>, i64, i64, i64, i64) {
    (Seq::empty(), base, hw, -1i64, base)
}

/// A buffer after storing a batch: a new base offset is appended (a batch
/// already held is not stored twice), the high watermark taken, the base
/// offset lowered to the batch's if below it, and past 100 batches the
/// oldest dropped, base and lowest offset then the first one kept.
pub open spec fn stored(
    buf: (Seq<BatchView>, i64, i64, i64, i64),
    raw: Seq<u8>,
    base: i64,
    last: i64,
    count: i32,
    hw: i64,
) -> (Seq<BatchView>, i64, i64, i64, i64) {
    let batches = if has_batch_at(buf.0, base) {
        buf.0
    } else {
        buf.0.push((raw, (base, last, count, raw.len() as usize)))
    };
    let b1 = if batches.len() == 0 || base < buf.1 { base } else { buf.1 };
    if batches.len() > 100 {
        let kept = batches.subrange(batches.len() - 100, batches.len() as int);
        (kept, kept[0].1.0, hw, buf.3, kept[0].1.0)
    } else {
        (batches, b1, hw, buf.3, buf.4)
    }
}

/// Whether a batch is still unflushed after flushing up to `up_to`.
pub open spec fn unflushed(up_to: i64) -> spec_fn(BatchView) -> bool {
    |x: BatchView| x.1.1 > up_to
}

/// A buffer after flushing up to `up_to`: batches ending at or below it
/// leave; the base offset becomes the first left's when some left and some
/// remain, `up_to + 1` when none remain; the flushed offset is `up_to`.
pub open spec fn flushed(buf: (Seq<BatchView>, i64, i64, i64, i64), up_to: i64) -> (Seq<BatchView>, i64, i64, i64, i64) {
    let kept = buf.0.filter(unflushed(up_to));
    let removed = buf.0.len() - kept.len();
    let base = if kept.len() > 0 && removed > 0 {
        kept[0].1.0
    } else if kept.len() == 0 {
        (up_to + 1) as i64
    } else {
        buf.1
    };
    (kept, base, buf.2, up_to, buf.4)
}

impl PartitionBuffer {
    /// An empty buffer starting at `base`.
    pub fn new(base: i64, hw: i64) -> (b: Self)
        ensures
            buffer_wf(b),
            buffer_view(b) == fresh_buffer(base, hw),
    {
        let b = PartitionBuffer {
            raw_batches: Vec::new(),
            batch_metadata: Vec::new(),
            base_offset: base,
            high_watermark: hw,
            flushed_offset: -1,
            min_offset_in_buffer: base,
        };
        assert(batches_of(b) =~= Seq::<BatchView>::empty());
        b
    }

    /// Whether a batch with base offset `base` is held.
    fn holds_base(&self, base: i64) -> (r: bool)
        requires
            buffer_wf(*self),
        ensures
            r == has_batch_at(batches_of(*self), base),
    {
        let mut i: usize = 0;
        while i < self.batch_metadata.len()
            invariant
                i <= self.batch_metadata@.len(),
                buffer_wf(*self),
                forall|j: int| 0 <= j < i ==> (#[trigger] self.batch_metadata@[j]).base_offset != base,
            decreases self.batch_metadata.len() - i,
        {
            if self.batch_metadata[i].base_offset == base {
                assert(batches_of(*self)[i as int].1.0 == base);
                return true;
            }
            i += 1;
        }
        assert forall|j: int| 0 <= j < batches_of(*self).len() implies (#[trigger] batches_of(*self)[j]).1.0 != base by {
            assert(self.batch_metadata@[j].base_offset != base);
        }
        false
    }

    /// Stores a raw batch covering `[base, last]` and takes `hw` as the
    /// high watermark; see `stored`.
    pub fn store(&mut self, raw: &[u8], base: i64, last: i64, count: i32, hw: i64)
        requires
            buffer_wf(*old(self)),
        ensures
            buffer_wf(*final(self)),
            buffer_view(*final(self)) == stored(buffer_view(*old(self)), raw@, base, last, count, hw),
    {
        let ghost v0 = buffer_view(*self);
        if !self.holds_base(base) {
            let mut copy: Vec<u8> = Vec::new();
            let mut i: usize = 0;
            while i < raw.len()
                invariant
                    i <= raw@.len(),
                    copy@ == raw@.subrange(0, i as int),
                decreases raw.len() - i,
            {
                copy.push(raw[i]);
                i += 1;
                assert(copy@ =~= raw@.subrange(0, i as int));
            }
            assert(copy@ =~= raw@);
            let ghost b0 = batches_of(*self);
            self.raw_batches.push(copy);
            self.batch_metadata.push(BatchMetadata { base_offset: base, last_offset: last, record_count: count, size_bytes: raw.len() });
            assert(batches_of(*self) =~= b0.push((raw@, (base, last, count, raw@.len() as usize))));
        }
        self.high_watermark = hw;
        if self.batch_metadata.len() == 0 || base < self.base_offset {
            self.base_offset = base;
        }
        let n = self.raw_batches.len();
        if n > MAX_BUFFERED_BATCHES {
            let trim = n - MAX_BUFFERED_BATCHES;
            let ghost b1 = batches_of(*self);
            let mut raws: Vec<Vec<u8>> = Vec::new();
            let mut metas: Vec<BatchMetadata> = Vec::new();
            let mut old_raws = Vec::new();
            std::mem::swap(&mut old_raws, &mut self.raw_batches);
            let mut j: usize = 0;
            for r in it: old_raws.into_iter()
                invariant
                    it.seq().len() == n,
                    forall|k: int| 0 <= k < n ==> (#[trigger] it.seq()[k])@ == b1[k].0,
                    b1.len() == n,
                    n > 100,
                    trim == n - 100,
                    j == it.index(),
                    raws@.len() == if j <= trim { 0 } else { j - trim },
                    forall|k: int| 0 <= k < raws@.len() ==> (#[trigger] raws@[k])@ == b1[k + trim].0,
            {
                if j >= trim {
                    raws.push(r);
                }
                j += 1;
            }
            let mut k: usize = trim;
            while k < n
                invariant
                    trim <= k <= n,
                    n == self.batch_metadata@.len(),
                    b1.len() == n,
                    forall|x: int| 0 <= x < n ==> meta_view(#[trigger] self.batch_metadata@[x]) == b1[x].1,
                    metas@.len() == k - trim,
                    forall|x: int| 0 <= x < metas@.len() ==> meta_view(#[trigger] metas@[x]) == b1[x + trim].1,
                decreases n - k,
            {
                metas.push(self.batch_metadata[k]);
                k += 1;
            }
            self.raw_batches = raws;
            self.batch_metadata = metas;
            let first = self.batch_metadata[0].base_offset;
            self.base_offset = first;
            self.min_offset_in_buffer = first;
            assert(batches_of(*self) =~= b1.subrange(n - 100, n as int));
        }
        proof {
            let s = stored(v0, raw@, base, last, count, hw);
            assert(buffer_view(*self).0 =~= s.0);
        }
    }

    /// Drops the batches flushed up to `up_to`; see `flushed`. At
    /// `i64::MAX` every batch leaves and the next base offset overflows, so
    /// that is left out.
    pub fn mark_flushed(&mut self, up_to: i64)
        requires
            buffer_wf(*old(self)),
            up_to < i64::MAX,
        ensures
            buffer_wf(*final(self)),
            buffer_view(*final(self)) == flushed(buffer_view(*old(self)), up_to),
    {
        let ghost orig = batches_of(*self);
        let ghost keep = unflushed(up_to);
        let total = self.batch_metadata.len();
        let mut i: usize = 0;
        let mut removed: usize = 0;
        let ghost mut seen: int = 0;
        while i < self.batch_metadata.len()
            invariant
                buffer_wf(*self),
                0 <= seen <= orig.len(),
                i <= self.batch_metadata@.len(),
                keep == unflushed(up_to),
                batches_of(*self).subrange(0, i as int) == orig.subrange(0, seen).filter(keep),
                batches_of(*self).subrange(i as int, batches_of(*self).len() as int) == orig.subrange(seen, orig.len() as int),
                removed == seen - i,
                batches_of(*self).len() - i == orig.len() - seen,
                orig.len() == total,
                batches_of(*self).len() == self.batch_metadata@.len(),
                up_to < i64::MAX,
                self.base_offset == old(self).base_offset,
                self.high_watermark == old(self).high_watermark,
                self.flushed_offset == old(self).flushed_offset,
                self.min_offset_in_buffer == old(self).min_offset_in_buffer,
            decreases orig.len() - seen,
        {
            let ghost before = batches_of(*self);
            proof {
                reveal(Seq::filter);
                assert(orig.subrange(0, seen + 1).drop_last() =~= orig.subrange(0, seen));
                assert(before.subrange(i as int, before.len() as int)[0] == orig[seen]);
                assert(orig.subrange(0, seen + 1).last() == orig[seen]);
            }
            if self.batch_metadata[i].last_offset <= up_to {
                self.raw_batches.remove(i);
                self.batch_metadata.remove(i);
                removed += 1;
                assert(batches_of(*self) =~= before.remove(i as int));
                assert(batches_of(*self).subrange(0, i as int) =~= before.subrange(0, i as int));
                let ghost now = batches_of(*self);
                assert forall|m: int| 0 <= m < now.len() - i implies
                    #[trigger] now.subrange(i as int, now.len() as int)[m] == orig.subrange(seen + 1, orig.len() as int)[m] by {
                    assert(now[i + m] == before[i + m + 1]);
                    assert(before.subrange(i as int, before.len() as int)[m + 1] == orig.subrange(seen, orig.len() as int)[m + 1]);
                }
                assert(batches_of(*self).subrange(i as int, batches_of(*self).len() as int)
                    =~= orig.subrange(seen + 1, orig.len() as int));
            } else {
                assert forall|m: int| 0 <= m < before.len() - i - 1 implies
                    #[trigger] before.subrange(i + 1, before.len() as int)[m] == orig.subrange(seen + 1, orig.len() as int)[m] by {
                    assert(before.subrange(i as int, before.len() as int)[m + 1] == orig.subrange(seen, orig.len() as int)[m + 1]);
                }
                assert(batches_of(*self).subrange(0, i as int + 1) =~= before.subrange(0, i as int).push(orig[seen]));
                assert(batches_of(*self).subrange(i as int + 1, batches_of(*self).len() as int)
                    =~= orig.subrange(seen + 1, orig.len() as int));
                i += 1;
            }
            proof {
                seen = seen + 1;
            }
        }
        proof {
            assert(orig.subrange(0, orig.len() as int) =~= orig);
            assert(batches_of(*self).subrange(0, i as int) =~= batches_of(*self));
        }
        if self.batch_metadata.len() > 0 && removed > 0 {
            self.base_offset = self.batch_metadata[0].base_offset;
            assert(batches_of(*self)[0].1.0 == self.batch_metadata@[0].base_offset);
        } else if self.batch_metadata.len() == 0 {
            self.base_offset = up_to + 1;
        }
        self.flushed_offset = up_to;
    }
}

/// The buffers of every partition, keyed by (topic, partition).
pub struct PartitionBuffers {
    buffers: Vec<((String, i32), PartitionBuffer)>,
}

/// A keyed buffer as plain values.
pub open spec fn keyed_view(e: ((String, i32), PartitionBuffer)) -> ((Seq<char>, i32), (Seq<BatchView>, i64, i64, i64, i64)) {
    ((e.0.0@, e.0.1), buffer_view(e.1))
}

/// Whether a keyed buffer belongs to another topic than `topic`.
pub open spec fn other_topic(topic: Seq<char>) -> spec_fn(((Seq<char>, i32), (Seq<BatchView>, i64, i64, i64, i64))) -> bool {
    |e: ((Seq<char>, i32), (Seq<BatchView>, i64, i64, i64, i64))| e.0.0 != topic
}

impl PartitionBuffers {
    /// The buffers, in the order partitions first got one.
    pub closed spec fn entries(&self) -> Seq<((Seq<char>, i32), (Seq<BatchView>, i64, i64, i64, i64))> {
        self.buffers@.map_values(|e: ((String, i32), PartitionBuffer)| keyed_view(e))
    }

    /// Each partition once, each buffer's bytes and metadata lined up.
    pub closed spec fn wf(&self) -> bool {
        &&& keys_unique(self.entries())
        &&& forall|i: int| 0 <= i < self.buffers@.len() ==> buffer_wf(#[trigger] self.buffers@[i].1)
    }

    /// No buffers.
    pub fn new() -> (b: Self)
        ensures
            b.wf(),
            b.entries().len() == 0,
    {
        let b = PartitionBuffers { buffers: Vec::new() };
        assert(b.entries() =~= Seq::empty());
        b
    }

    /// How many partitions have a buffer.
    pub fn len(&self) -> (n: usize)
        ensures
            n == self.entries().len(),
    {
        self.buffers.len()
    }

    fn position(&self, topic: &str, partition: i32) -> (r: Option<usize>)
        requires
            self.wf(),
        ensures
            match r {
                Some(i) => key_index(self.entries(), (topic@, partition)) == i && i < self.entries().len(),
                None => key_index(self.entries(), (topic@, partition)) < 0,
            },
    {
        let ghost es = self.entries();
        proof {
            lemma_key_index(es, (topic@, partition));
        }
        let mut i: usize = 0;
        while i < self.buffers.len()
            invariant
                i <= self.buffers@.len(),
                es == self.entries(),
                es.len() == self.buffers@.len(),
                forall|j: int| 0 <= j < i ==> es[j].0 != (topic@, partition),
                -1 <= key_index(es, (topic@, partition)) < es.len(),
                key_index(es, (topic@, partition)) >= 0 ==> es[key_index(es, (topic@, partition))].0 == (topic@, partition),
                key_index(es, (topic@, partition)) >= 0 ==> forall|j: int| 0 <= j < key_index(es, (topic@, partition)) ==> es[j].0 != (topic@, partition),
                key_index(es, (topic@, partition)) < 0 ==> forall|j: int| 0 <= j < es.len() ==> es[j].0 != (topic@, partition),
            decreases self.buffers.len() - i,
        {
            assert(es[i as int] == keyed_view(self.buffers@[i as int]));
            if self.buffers[i].0.1 == partition && str_eq(self.buffers[i].0.0.as_str(), topic) {
                assert(key_index(es, (topic@, partition)) == i as int);
                return Some(i);
            }
            i += 1;
        }
        None
    }

    /// The buffer of a partition, if it has one.
    pub fn get(&self, topic: &str, partition: i32) -> (r: Option<&PartitionBuffer>)
        requires
            self.wf(),
        ensures
            match key_lookup(self.entries(), (topic@, partition)) {
                Some(v) => r matches Some(b) && buffer_view(*b) == v && buffer_wf(*b),
                None => r is None,
            },
    {
        match self.position(topic, partition) {
            Some(i) => {
                assert(self.entries()[i as int] == keyed_view(self.buffers@[i as int]));
                Some(&self.buffers[i].1)
            },
            None => None,
        }
    }

    /// Stores a raw batch for a partition, creating its buffer (starting at
    /// `base_offset`) on its first batch. Empty bytes change nothing.
    pub fn update_buffer_with_raw_batch(
        &mut self,
        topic: &str,
        partition: i32,
        raw_bytes: &[u8],
        base_offset: i64,
        last_offset: i64,
        record_count: i32,
        high_watermark: i64,
    )
        requires
            old(self).wf(),
        ensures
            final(self).wf(),
            raw_bytes@.len() == 0 ==> final(self).entries() == old(self).entries(),
            raw_bytes@.len() > 0 ==> final(self).entries() == key_insert(
                old(self).entries(),
                (topic@, partition),
                stored(
                    match key_lookup(old(self).entries(), (topic@, partition)) {
                        Some(v) => v,
                        None => fresh_buffer(base_offset, high_watermark),
                    },
                    raw_bytes@,
                    base_offset,
                    last_offset,
                    record_count,
                    high_watermark,
                ),
            ),
    {
        if raw_bytes.len() == 0 {
            return;
        }
        let ghost es = self.entries();
        let ghost k = (topic@, partition);
        proof {
            lemma_key_index(es, k);
        }
        match self.position(topic, partition) {
            Some(i) => {
                let mut entry = self.buffers.remove(i);
                let ghost prev = entry.1;
                assert(es[i as int] == keyed_view(entry));
                proof {
                    assert(buffer_wf(prev)) by {
                        assert(buffer_wf(old(self).buffers@[i as int].1));
                    }
                }
                entry.1.store(raw_bytes, base_offset, last_offset, record_count, high_watermark);
                let ghost nv = keyed_view(entry);
                self.buffers.insert(i, entry);
                proof {
                    assert(self.entries() =~= es.update(i as int, nv));
                    lemma_key_insert_unique(es, k, nv.1);
                    assert forall|j: int| 0 <= j < self.buffers@.len() implies buffer_wf(#[trigger] self.buffers@[j].1) by {
                        if j != i {
                            assert(self.buffers@[j] == old(self).buffers@[j]);
                        }
                    }
                }
            },
            None => {
                let mut b = PartitionBuffer::new(base_offset, high_watermark);
                b.store(raw_bytes, base_offset, last_offset, record_count, high_watermark);
                let name = topic.to_string();
                let ghost nv = keyed_view(((name, partition), b));
                self.buffers.push(((name, partition), b));
                proof {
                    assert(self.entries() =~= es.push(nv));
                    lemma_key_insert_unique(es, k, nv.1);
                    assert forall|j: int| 0 <= j < self.buffers@.len() implies buffer_wf(#[trigger] self.buffers@[j].1) by {
                        if j < es.len() {
                            assert(self.buffers@[j] == old(self).buffers@[j]);
                        }
                    }
                }
            },
        }
    }

    /// Drops a partition's batches flushed up to `up_to_offset`; nothing
    /// happens to a partition without a buffer. Flushing a buffer up to
    /// `i64::MAX` empties it and overflows its next base offset, so that is
    /// left out.
    pub fn mark_flushed(&mut self, topic: &str, partition: i32, up_to_offset: i64)
        requires
            old(self).wf(),
            key_lookup(old(self).entries(), (topic@, partition)) is Some ==> up_to_offset < i64::MAX,
        ensures
            final(self).wf(),
            final(self).entries() == match key_lookup(old(self).entries(), (topic@, partition)) {
                Some(v) => key_insert(old(self).entries(), (topic@, partition), flushed(v, up_to_offset)),
                None => old(self).entries(),
            },
    {
        let ghost es = self.entries();
        let ghost k = (topic@, partition);
        proof {
            lemma_key_index(es, k);
        }
        match self.position(topic, partition) {
            Some(i) => {
                let mut entry = self.buffers.remove(i);
                assert(es[i as int] == keyed_view(entry));
                proof {
                    assert(buffer_wf(entry.1)) by {
                        assert(buffer_wf(old(self).buffers@[i as int].1));
                    }
                }
                entry.1.mark_flushed(up_to_offset);
                let ghost nv = keyed_view(entry);
                self.buffers.insert(i, entry);
                proof {
                    assert(self.entries() =~= es.update(i as int, nv));
                    lemma_key_insert_unique(es, k, nv.1);
                    assert forall|j: int| 0 <= j < self.buffers@.len() implies buffer_wf(#[trigger] self.buffers@[j].1) by {
                        if j != i {
                            assert(self.buffers@[j] == old(self).buffers@[j]);
                        }
                    }
                }
            },
            None => {},
        }
    }

    /// Drops the buffers of every partition of `topic`.
    pub fn clear_topic_buffers(&mut self, topic: &str)
        requires
            old(self).wf(),
        ensures
            final(self).wf(),
            final(self).entries() == old(self).entries().filter(other_topic(topic@)),
    {
        let ghost orig = self.entries();
        let ghost keep = other_topic(topic@);
        let mut old_buffers = Vec::new();
        std::mem::swap(&mut old_buffers, &mut self.buffers);
        let ghost src = old_buffers@;
        assert(self.entries() =~= Seq::empty());
        for e in it: old_buffers.into_iter()
            invariant
                it.seq() == src,
                orig == src.map_values(|e: ((String, i32), PartitionBuffer)| keyed_view(e)),
                keep == other_topic(topic@),
                0 <= it.index() <= src.len(),
                self.entries() == orig.subrange(0, it.index()).filter(keep),
                forall|j: int| 0 <= j < src.len() ==> buffer_wf(#[trigger] src[j].1),
                forall|j: int| 0 <= j < self.buffers@.len() ==> buffer_wf(#[trigger] self.buffers@[j].1),
                keys_unique(orig),
        {
            proof {
                reveal(Seq::filter);
                assert(orig.subrange(0, it.index() + 1).drop_last() =~= orig.subrange(0, it.index()));
                assert(orig.subrange(0, it.index() + 1).last() == keyed_view(e));
            }
            if !str_eq(e.0.0.as_str(), topic) {
                let ghost before = self.entries();
                self.buffers.push(e);
                assert(self.entries() =~= before.push(keyed_view(e)));
            }
        }
        proof {
            assert(orig.subrange(0, orig.len() as int) =~= orig);
            let f = orig.filter(keep);
            assert forall|a: int, b: int| 0 <= a < b < f.len() implies f[a].0 != f[b].0 by {
                lemma_filter_keys_unique(orig, keep);
            }
        }
    }
}

proof fn lemma_filter_keys_unique<K, V>(s: Seq<(K, V)>, p: spec_fn((K, V)) -> bool)
    requires
        keys_unique(s),
    ensures
        keys_unique(s.filter(p)),
    decreases s.len(),
{
    reveal(Seq::filter);
    if s.len() > 0 {
        let front = s.drop_last();
        assert forall|i: int, j: int| 0 <= i < j < front.len() implies front[i].0 != front[j].0 by {
            assert(front[i] == s[i] && front[j] == s[j]);
        }
        lemma_filter_keys_unique(front, p);
        let f = front.filter(p);
        if p(s.last()) {
            assert forall|i: int| 0 <= i < f.len() implies (#[trigger] f[i]).0 != s.last().0 by {
                assert(f.contains(f[i]));
                front.lemma_filter_contains_rev(p, f[i]);
                let k = choose|k: int| 0 <= k < front.len() && front[k] == f[i];
                assert(s[k] == front[k]);
            }
            assert(s.filter(p) == f.push(s.last()));
        }
    }
}

} // verus!
