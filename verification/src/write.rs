//! Writing pages: which pages of a batch have to be stored, what is stored for each, and
//! which hashes a transaction has dealt with.

use std::time::Duration;

use vstd::prelude::*;

use crate::hashes::ContentHashSet;
use crate::order::bytes_eq;
use crate::outside::content_hash;
use crate::store::Core;
use crate::text::append_padded_decimal;

verus! {

/// One page of a batch of writes.
pub struct WriteRequest<'a> {
    pub data: &'a [u8],
    /// The page whose current content the new content may be encoded against.
    pub delta_base: Option<u32>,
}

/// What the writer of a page gets back.
pub struct WriteResponse {
    pub hash: Vec<u8>,
}

/// What a [`WriteApplier`] is made from.
pub struct WriteApplierContext {
    pub ns_id: [u8; 10],
    pub now: Duration,
    /// The largest page that the store takes, in bytes.
    pub max_page_size: usize,
}

/// Applies batches of writes to one namespace within one transaction.
pub struct WriteApplier {
    pub ns_id: [u8; 10],
    pub now: Duration,
    pub max_page_size: usize,
    /// The hashes whose index entry this transaction has already written. Such an entry
    /// cannot be read again before the commit.
    pub seen_hashes: ContentHashSet,
}

/// A page of a batch that is larger than the store takes.
#[derive(Debug, Clone, Copy, PartialEq, Eq, Structural)]
pub struct PageTooLarge {
    pub len: usize,
    pub limit: usize,
}

impl PageTooLarge {
    /// The text of the error.
    pub fn message(&self) -> (r: String)
        ensures
            r@ == "page is too large: "@ + crate::text::padded_decimal(self.len as nat, 1)
                + " bytes (limit "@ + crate::text::padded_decimal(self.limit as nat, 1) + ")"@,
    {
        let mut text = "page is too large: ".to_owned();
        append_padded_decimal(&mut text, self.len as u64, 1);
        text.append(" bytes (limit ");
        append_padded_decimal(&mut text, self.limit as u64, 1);
        text.append(")");
        text
    }
}

/// A page that a batch has to store.
pub struct WriteContext<'a> {
    pub data: &'a [u8],
    pub delta_base: Option<u32>,
    pub hash: [u8; 32],
    /// The content is stored already, and only the index entry is left to write.
    pub early_completion: bool,
}

/// A batch of writes on its way into the store.
pub struct WriteBatch<'a> {
    pub pending: Vec<WriteContext<'a>>,
    pub responses: Vec<WriteResponse>,
    /// The hashes of the contents that pages of this batch were encoded against.
    pub delta_bases: Vec<[u8; 32]>,
}

/// A page content that is encoded against another content.
pub struct DeltaEncoding {
    pub encoded: Vec<u8>,
    pub base: [u8; 32],
}

/// A change to one key of the namespace.
pub enum Mutation<'a> {
    /// Stores, under the content key of `hash`, the compressed page.
    SetPage { hash: [u8; 32], data: &'a [u8] },
    /// Stores, under the content key of `hash`, an encoding against another content.
    SetDelta { hash: [u8; 32], encoded: Vec<u8> },
    /// Records, under the referrer key of `hash`, the content that it is encoded against.
    SetDeltaReferrer { hash: [u8; 32], base: [u8; 32] },
    /// Writes the content index entry of `hash`, stamped with the commit version.
    StampContentIndex { hash: [u8; 32], now: Duration },
}

/// The page at `i` opens a run of equal hashes, and its hash is not in `seen`.
pub open spec fn is_fresh(hashes: Seq<[u8; 32]>, seen: Set<Seq<u8>>, i: int) -> bool {
    &&& i == 0 || hashes[i - 1]@ != hashes[i]@
    &&& !seen.contains(hashes[i]@)
}

/// What a batch of the first `n` requests has to store, in order: of each run of equal
/// hashes the first page, unless the hash is in `seen`.
pub open spec fn pending_writes<'a>(
    reqs: Seq<WriteRequest<'a>>,
    hashes: Seq<[u8; 32]>,
    seen: Set<Seq<u8>>,
    n: int,
) -> Seq<WriteContext<'a>>
    decreases n,
{
    if n <= 0 {
        Seq::empty()
    } else {
        let before = pending_writes(reqs, hashes, seen, n - 1);
        if is_fresh(hashes, seen, n - 1) {
            before.push(
                WriteContext {
                    data: reqs[n - 1].data,
                    delta_base: reqs[n - 1].delta_base,
                    hash: hashes[n - 1],
                    early_completion: false,
                },
            )
        } else {
            before
        }
    }
}

/// `hashes` holds the content hash of each request.
pub open spec fn hashes_requests(hashes: Seq<[u8; 32]>, reqs: Seq<WriteRequest>) -> bool {
    &&& hashes.len() == reqs.len()
    &&& forall|i: int|
        0 <= i < reqs.len() ==> (#[trigger] hashes[i])@ == crate::outside::blake3_hash(
            reqs[i].data@,
        )
}

/// The responses hand back the hashes, in order.
pub open spec fn responds(responses: Seq<WriteResponse>, hashes: Seq<[u8; 32]>) -> bool {
    &&& responses.len() == hashes.len()
    &&& forall|i: int| 0 <= i < hashes.len() ==> (#[trigger] responses[i]).hash@ == hashes[i]@
}

/// What is left to write for the first `n` pages once their deltas are settled: each page
/// whose content is not stored yet, and the index entry of every page.
pub open spec fn final_mutations<'a>(
    pending: Seq<WriteContext<'a>>,
    now: Duration,
    n: int,
) -> Seq<Mutation<'a>>
    decreases n,
{
    if n <= 0 {
        Seq::empty()
    } else {
        let before = final_mutations(pending, now, n - 1);
        let page = pending[n - 1];
        let stamp = Mutation::StampContentIndex { hash: page.hash, now };
        if page.early_completion {
            before.push(stamp)
        } else {
            before.push(Mutation::SetPage { hash: page.hash, data: page.data }).push(stamp)
        }
    }
}

/// The hashes of some pages.
pub open spec fn pending_hashes(pending: Seq<WriteContext>) -> Set<Seq<u8>> {
    Set::new(
        |h: Seq<u8>| exists|i: int| 0 <= i < pending.len() && (#[trigger] pending[i]).hash@ == h,
    )
}

/// The views of some hashes.
pub open spec fn hash_views(hashes: Seq<[u8; 32]>) -> Set<Seq<u8>> {
    Set::new(|h: Seq<u8>| exists|i: int| 0 <= i < hashes.len() && (#[trigger] hashes[i])@ == h)
}

impl WriteApplier {
    /// An applier that has dealt with no hash yet.
    pub fn new(ctx: WriteApplierContext) -> (r: Self)
        ensures
            r.ns_id == ctx.ns_id,
            r.now == ctx.now,
            r.max_page_size == ctx.max_page_size,
            r.seen_hashes@ == Set::<Seq<u8>>::empty(),
    {
        WriteApplier {
            ns_id: ctx.ns_id,
            now: ctx.now,
            max_page_size: ctx.max_page_size,
            seen_hashes: ContentHashSet::new(),
        }
    }

    /// Starts a batch: hashes every page and finds those that have to be stored. Fails on
    /// the first page that is too large.
    pub fn apply_write<'a>(&self, write_reqs: &[WriteRequest<'a>]) -> (r: Result<
        WriteBatch<'a>,
        PageTooLarge,
    >)
        ensures
            match r {
                Ok(batch) => {
                    &&& forall|i: int|
                        0 <= i < write_reqs.len() ==> (#[trigger] write_reqs@[i]).data@.len()
                            <= self.max_page_size
                    &&& exists|hashes: Seq<[u8; 32]>|
                        {
                            &&& hashes_requests(hashes, write_reqs@)
                            &&& responds(batch.responses@, hashes)
                            &&& batch.pending@ == #[trigger] pending_writes(
                                write_reqs@,
                                hashes,
                                self.seen_hashes@,
                                write_reqs@.len() as int,
                            )
                        }
                    &&& batch.delta_bases@.len() == 0
                },
                Err(e) => {
                    &&& e.limit == self.max_page_size
                    &&& exists|i: int|
                        {
                            &&& 0 <= i < write_reqs.len()
                            &&& e.len == (#[trigger] write_reqs@[i]).data@.len()
                            &&& e.len > self.max_page_size
                            &&& forall|j: int|
                                0 <= j < i ==> (#[trigger] write_reqs@[j]).data@.len()
                                    <= self.max_page_size
                        }
                },
            },
    {
        let mut hashes: Vec<[u8; 32]> = Vec::new();
        let mut i: usize = 0;
        while i < write_reqs.len()
            invariant
                i <= write_reqs.len(),
                forall|j: int|
                    0 <= j < i ==> (#[trigger] write_reqs@[j]).data@.len() <= self.max_page_size,
            decreases write_reqs.len() - i,
        {
            if write_reqs[i].data.len() > self.max_page_size {
                return Err(
                    PageTooLarge { len: write_reqs[i].data.len(), limit: self.max_page_size },
                );
            }
            i = i + 1;
        }
        i = 0;
        while i < write_reqs.len()
            invariant
                i <= write_reqs.len(),
                hashes@.len() == i,
                forall|j: int|
                    0 <= j < i ==> (#[trigger] hashes@[j])@ == crate::outside::blake3_hash(
                        write_reqs@[j].data@,
                    ),
            decreases write_reqs.len() - i,
        {
            hashes.push(content_hash(write_reqs[i].data));
            i = i + 1;
        }
        assert(hashes_requests(hashes@, write_reqs@));
        Ok(self.plan_write(write_reqs, &hashes))
    }

    /// Starts a batch of pages whose hashes are known.
    pub fn plan_write<'a>(
        &self,
        write_reqs: &[WriteRequest<'a>],
        hashes: &Vec<[u8; 32]>,
    ) -> (batch: WriteBatch<'a>)
        requires
            hashes.len() == write_reqs.len(),
        ensures
            responds(batch.responses@, hashes@),
            batch.pending@ == pending_writes(
                write_reqs@,
                hashes@,
                self.seen_hashes@,
                write_reqs@.len() as int,
            ),
            batch.delta_bases@.len() == 0,
    {
        let mut pending: Vec<WriteContext<'a>> = Vec::new();
        let mut responses: Vec<WriteResponse> = Vec::new();
        let mut i: usize = 0;
        while i < write_reqs.len()
            invariant
                i <= write_reqs.len(),
                hashes.len() == write_reqs.len(),
                responses@.len() == i,
                forall|j: int| 0 <= j < i ==> (#[trigger] responses@[j]).hash@ == hashes@[j]@,
                pending@ == pending_writes(write_reqs@, hashes@, self.seen_hashes@, i as int),
            decreases write_reqs.len() - i,
        {
            responses.push(WriteResponse { hash: vstd::slice::slice_to_vec(hashes[i].as_slice()) });
            let starts_run = i == 0 || !bytes_eq(hashes[i - 1].as_slice(), hashes[i].as_slice());
            if starts_run && !self.seen_hashes.contains(&hashes[i]) {
                pending.push(
                    WriteContext {
                        data: write_reqs[i].data,
                        delta_base: write_reqs[i].delta_base,
                        hash: hashes[i],
                        early_completion: false,
                    },
                );
            }
            i = i + 1;
        }
        WriteBatch { pending, responses, delta_bases: Vec::new() }
    }

    /// Ends a batch: hands out what is left to write, and remembers the hashes whose index
    /// entries the transaction has now written.
    pub fn finish<'a>(&mut self, batch: WriteBatch<'a>) -> (r: (
        Vec<Mutation<'a>>,
        Vec<WriteResponse>,
    ))
        ensures
            r.0@ == final_mutations(batch.pending@, old(self).now, batch.pending@.len() as int),
            r.1@ == batch.responses@,
            final(self).seen_hashes@ == old(self).seen_hashes@.union(
                hash_views(batch.delta_bases@),
            ).union(pending_hashes(batch.pending@)),
            final(self).ns_id == old(self).ns_id,
            final(self).now == old(self).now,
            final(self).max_page_size == old(self).max_page_size,
    {
        let mut mutations: Vec<Mutation<'a>> = Vec::new();
        let WriteBatch { pending, responses, delta_bases } = batch;
        let ghost before = self.seen_hashes@;
        let mut i: usize = 0;
        while i < delta_bases.len()
            invariant
                i <= delta_bases.len(),
                self.seen_hashes@ == before.union(hash_views(delta_bases@.take(i as int))),
                self.ns_id == old(self).ns_id,
                self.now == old(self).now,
                self.max_page_size == old(self).max_page_size,
            decreases delta_bases.len() - i,
        {
            self.seen_hashes.insert(&delta_bases[i]);
            i = i + 1;
            proof {
                lemma_hash_views_step(delta_bases@, i as int);
                assert(self.seen_hashes@ =~= before.union(hash_views(delta_bases@.take(i as int))));
            }
        }
        assert(delta_bases@.take(delta_bases@.len() as int) =~= delta_bases@);
        let ghost middle = self.seen_hashes@;
        i = 0;
        while i < pending.len()
            invariant
                i <= pending.len(),
                self.seen_hashes@ == middle.union(pending_hashes(pending@.take(i as int))),
                self.ns_id == old(self).ns_id,
                self.now == old(self).now,
                self.max_page_size == old(self).max_page_size,
                mutations@ == final_mutations(pending@, self.now, i as int),
            decreases pending.len() - i,
        {
            let page = &pending[i];
            if !page.early_completion {
                mutations.push(Mutation::SetPage { hash: page.hash, data: page.data });
            }
            mutations.push(Mutation::StampContentIndex { hash: page.hash, now: self.now });
            self.seen_hashes.insert(&page.hash);
            i = i + 1;
            proof {
                lemma_pending_hashes_step(pending@, i as int);
                assert(self.seen_hashes@ =~= middle.union(pending_hashes(pending@.take(i as int))));
            }
        }
        assert(pending@.take(pending@.len() as int) =~= pending@);
        (mutations, responses)
    }
}

impl Core {
    /// Starts to write some pages to a namespace, in a transaction of their own. Fails on the
    /// first page that is too large.
    pub fn write_pages<'a>(
        &self,
        ns_id: [u8; 10],
        now: Duration,
        max_page_size: usize,
        write_reqs: &[WriteRequest<'a>],
    ) -> (r: Result<(WriteApplier, WriteBatch<'a>), PageTooLarge>)
        ensures
            match r {
                Ok((applier, batch)) => {
                    &&& applier.ns_id == ns_id
                    &&& applier.now == now
                    &&& applier.max_page_size == max_page_size
                    &&& applier.seen_hashes@ == Set::<Seq<u8>>::empty()
                    &&& forall|i: int|
                        0 <= i < write_reqs.len() ==> (#[trigger] write_reqs@[i]).data@.len()
                            <= max_page_size
                    &&& exists|hashes: Seq<[u8; 32]>|
                        {
                            &&& hashes_requests(hashes, write_reqs@)
                            &&& responds(batch.responses@, hashes)
                            &&& batch.pending@ == #[trigger] pending_writes(
                                write_reqs@,
                                hashes,
                                Set::<Seq<u8>>::empty(),
                                write_reqs@.len() as int,
                            )
                        }
                    &&& batch.delta_bases@.len() == 0
                },
                Err(e) => {
                    &&& e.limit == max_page_size
                    &&& exists|i: int|
                        {
                            &&& 0 <= i < write_reqs.len()
                            &&& e.len == (#[trigger] write_reqs@[i]).data@.len()
                            &&& e.len > max_page_size
                            &&& forall|j: int|
                                0 <= j < i ==> (#[trigger] write_reqs@[j]).data@.len()
                                    <= max_page_size
                        }
                },
            },
    {
        let applier = WriteApplier::new(WriteApplierContext { ns_id, now, max_page_size });
        match applier.apply_write(write_reqs) {
            Ok(batch) => Ok((applier, batch)),
            Err(e) => Err(e),
        }
    }
}

proof fn lemma_hash_views_step(hashes: Seq<[u8; 32]>, n: int)
    requires
        0 < n <= hashes.len(),
    ensures
        hash_views(hashes.take(n)) == hash_views(hashes.take(n - 1)).insert(hashes[n - 1]@),
{
    let a = hashes.take(n);
    let b = hashes.take(n - 1);
    assert forall|h: Seq<u8>| hash_views(a).contains(h) <==> hash_views(b).insert(
        hashes[n - 1]@,
    ).contains(h) by {
        if hash_views(b).contains(h) {
            let i: int = choose|i: int| 0 <= i < b.len() && (#[trigger] b[i])@ == h;
            assert(a[i] == b[i]);
        }
        if h == hashes[n - 1]@ {
            assert(a[n - 1]@ == h);
        }
        if hash_views(a).contains(h) && h != hashes[n - 1]@ {
            let i: int = choose|i: int| 0 <= i < a.len() && (#[trigger] a[i])@ == h;
            assert(b[i] == a[i]);
        }
    }
    assert(hash_views(a) =~= hash_views(b).insert(hashes[n - 1]@));
}

proof fn lemma_pending_hashes_step(pending: Seq<WriteContext>, n: int)
    requires
        0 < n <= pending.len(),
    ensures
        pending_hashes(pending.take(n)) == pending_hashes(pending.take(n - 1)).insert(
            pending[n - 1].hash@,
        ),
{
    let a = pending.take(n);
    let b = pending.take(n - 1);
    assert forall|h: Seq<u8>| pending_hashes(a).contains(h) <==> pending_hashes(b).insert(
        pending[n - 1].hash@,
    ).contains(h) by {
        if pending_hashes(b).contains(h) {
            let i: int = choose|i: int| 0 <= i < b.len() && (#[trigger] b[i]).hash@ == h;
            assert(a[i] == b[i]);
        }
        if h == pending[n - 1].hash@ {
            assert(a[n - 1].hash@ == h);
        }
        if pending_hashes(a).contains(h) && h != pending[n - 1].hash@ {
            let i: int = choose|i: int| 0 <= i < a.len() && (#[trigger] a[i]).hash@ == h;
            assert(b[i] == a[i]);
        }
    }
    assert(pending_hashes(a) =~= pending_hashes(b).insert(pending[n - 1].hash@));
}

impl<'a> WriteBatch<'a> {
    /// Takes in whether the content index already has the page at `i`. If it does, the
    /// content need not be stored. This is more than a saving: storing it again could make
    /// contents that are encoded against each other.
    pub fn note_indexed(&mut self, i: usize, present: bool)
        requires
            i < old(self).pending.len(),
        ensures
            final(self).pending@ == old(self).pending@.update(
                i as int,
                (WriteContext {
                    early_completion: old(self).pending@[i as int].early_completion || present,
                    ..old(self).pending@[i as int]
                }),
            ),
            final(self).responses == old(self).responses,
            final(self).delta_bases == old(self).delta_bases,
    {
        if present {
            self.pending[i].early_completion = true;
        }
        assert(self.pending@ =~= old(self).pending@.update(i as int, self.pending@[i as int]));
    }

    /// The page against whose content the page at `i` should be encoded, if any.
    pub fn delta_request(&self, i: usize) -> (r: Option<u32>)
        requires
            i < self.pending.len(),
        ensures
            r == if self.pending@[i as int].early_completion {
                None
            } else {
                self.pending@[i as int].delta_base
            },
    {
        if self.pending[i].early_completion {
            None
        } else {
            self.pending[i].delta_base
        }
    }

    /// Takes in the encoding that the page at `i` was given, and hands out what to write
    /// for it. Without an encoding the page is left to be stored whole.
    pub fn note_delta(
        &mut self,
        i: usize,
        encoding: Option<DeltaEncoding>,
        now: Duration,
    ) -> (r: Vec<Mutation<'a>>)
        requires
            i < old(self).pending.len(),
            !old(self).pending@[i as int].early_completion,
        ensures
            match encoding {
                None => {
                    &&& r@.len() == 0
                    &&& *final(self) == *old(self)
                },
                Some(delta) => {
                    let hash = old(self).pending@[i as int].hash;
                    &&& r@ == delta_mutations(hash, delta, now)
                    &&& final(self).pending@ == old(self).pending@.update(
                        i as int,
                        (WriteContext { early_completion: true, ..old(self).pending@[i as int] }),
                    )
                    &&& final(self).delta_bases@ == old(self).delta_bases@.push(delta.base)
                    &&& final(self).responses == old(self).responses
                },
            },
    {
        let mut mutations: Vec<Mutation<'a>> = Vec::new();
        match encoding {
            None => {},
            Some(delta) => {
                let hash = self.pending[i].hash;
                mutations.push(Mutation::SetDelta { hash, encoded: delta.encoded });
                mutations.push(Mutation::SetDeltaReferrer { hash, base: delta.base });
                mutations.push(Mutation::StampContentIndex { hash: delta.base, now });
                self.pending[i].early_completion = true;
                self.delta_bases.push(delta.base);
                assert(self.pending@ =~= old(self).pending@.update(
                    i as int,
                    self.pending@[i as int],
                ));
            },
        }
        mutations
    }
}

/// What `note_delta` hands out for one page.
pub open spec fn delta_mutations<'a>(
    hash: [u8; 32],
    encoding: DeltaEncoding,
    now: Duration,
) -> Seq<Mutation<'a>> {
    seq![
        Mutation::SetDelta { hash, encoded: encoding.encoded },
        Mutation::SetDeltaReferrer { hash, base: encoding.base },
        Mutation::StampContentIndex { hash: encoding.base, now },
    ]
}

/// What is handed out for the encodings of the first `n` pages, in order.
pub open spec fn batch_deltas<'a>(
    pending: Seq<WriteContext<'a>>,
    encodings: Seq<Option<DeltaEncoding>>,
    now: Duration,
    n: int,
) -> Seq<Mutation<'a>>
    decreases n,
{
    if n <= 0 {
        Seq::empty()
    } else {
        let before = batch_deltas(pending, encodings, now, n - 1);
        match encodings[n - 1] {
            Some(encoding) => before + delta_mutations(pending[n - 1].hash, encoding, now),
            None => before,
        }
    }
}

/// The contents that the first `n` encodings are made against, in order.
pub open spec fn encoding_bases(encodings: Seq<Option<DeltaEncoding>>, n: int) -> Seq<[u8; 32]>
    decreases n,
{
    if n <= 0 {
        Seq::empty()
    } else {
        match encodings[n - 1] {
            Some(encoding) => encoding_bases(encodings, n - 1).push(encoding.base),
            None => encoding_bases(encodings, n - 1),
        }
    }
}

/// `encodings` gives none to a page whose content is stored already.
pub open spec fn encodings_fit(
    pending: Seq<WriteContext>,
    encodings: Seq<Option<DeltaEncoding>>,
) -> bool {
    &&& encodings.len() == pending.len()
    &&& forall|i: int|
        0 <= i < pending.len() && (#[trigger] encodings[i]) is Some
            ==> !pending[i].early_completion
}

/// `after` are the pages of `before` once the first `n` encodings are taken in: those that have
/// one need no content of their own any more.
pub open spec fn encoded_pages<'a>(
    before: Seq<WriteContext<'a>>,
    encodings: Seq<Option<DeltaEncoding>>,
    n: int,
    after: Seq<WriteContext<'a>>,
) -> bool {
    &&& after.len() == before.len()
    &&& forall|i: int|
        0 <= i < before.len() ==> #[trigger] after[i] == (WriteContext {
            early_completion: before[i].early_completion || (i < n && encodings[i] is Some),
            ..before[i]
        })
}

impl<'a> WriteBatch<'a> {
    /// Takes in the encodings that the pages were given, one for each page, and hands out what
    /// to write for them.
    pub fn note_deltas(&mut self, encodings: Vec<Option<DeltaEncoding>>, now: Duration) -> (r: Vec<
        Mutation<'a>,
    >)
        requires
            encodings_fit(old(self).pending@, encodings@),
        ensures
            r@ == batch_deltas(
                old(self).pending@,
                encodings@,
                now,
                old(self).pending@.len() as int,
            ),
            encoded_pages(
                old(self).pending@,
                encodings@,
                old(self).pending@.len() as int,
                final(self).pending@,
            ),
            final(self).delta_bases@ == old(self).delta_bases@ + encoding_bases(
                encodings@,
                encodings@.len() as int,
            ),
            final(self).responses == old(self).responses,
    {
        let mut mutations: Vec<Mutation<'a>> = Vec::new();
        let ghost all = encodings@;
        let ghost pages = self.pending@;
        let mut left = encodings;
        let mut i: usize = 0;
        while i < self.pending.len()
            invariant
                i <= pages.len(),
                self.pending@.len() == pages.len(),
                pages == old(self).pending@,
                encodings_fit(pages, all),
                left@ == all.skip(i as int),
                mutations@ == batch_deltas(pages, all, now, i as int),
                encoded_pages(pages, all, i as int, self.pending@),
                self.delta_bases@ == old(self).delta_bases@ + encoding_bases(all, i as int),
                self.responses == old(self).responses,
            decreases pages.len() - i,
        {
            let encoding = left.remove(0);
            proof {
                assert(encoding == all[i as int]);
                assert(left@ =~= all.skip(i as int + 1));
                assert(self.pending@[i as int] == (WriteContext {
                    early_completion: pages[i as int].early_completion || (i < i && all[i as int]
                        is Some),
                    ..pages[i as int]
                }));
            }
            let ghost before = mutations@;
            let ghost had = self.pending@;
            if encoding.is_some() {
                assert(!pages[i as int].early_completion);
                let mut more = self.note_delta(i, encoding, now);
                mutations.append(&mut more);
                assert(mutations@ =~= before + delta_mutations(
                    pages[i as int].hash,
                    all[i as int]->0,
                    now,
                ));
                assert(self.delta_bases@ =~= old(self).delta_bases@ + encoding_bases(
                    all,
                    i as int + 1,
                ));
            }
            assert(encoded_pages(pages, all, i as int + 1, self.pending@)) by {
                assert forall|j: int| 0 <= j < pages.len() implies #[trigger] self.pending@[j] == (
                WriteContext {
                    early_completion: pages[j].early_completion || (j < i + 1 && all[j] is Some),
                    ..pages[j]
                }) by {
                    assert(had[j] == (WriteContext {
                        early_completion: pages[j].early_completion || (j < i && all[j] is Some),
                        ..pages[j]
                    }));
                }
            }
            i = i + 1;
        }
        mutations
    }
}

/// The two lists hold the same pages, whatever has become of them since.
pub open spec fn same_pages(a: Seq<WriteContext>, b: Seq<WriteContext>) -> bool {
    &&& a.len() == b.len()
    &&& forall|i: int|
        0 <= i < a.len() ==> {
            &&& (#[trigger] a[i]).hash == b[i].hash
            &&& a[i].data == b[i].data
            &&& a[i].delta_base == b[i].delta_base
        }
}

/// A page that is left to store has a hash that the transaction has not dealt with before,
/// and is the page of a request.
pub proof fn pending_hashes_are_unseen<'a>(
    reqs: Seq<WriteRequest<'a>>,
    hashes: Seq<[u8; 32]>,
    seen: Set<Seq<u8>>,
    n: int,
)
    requires
        0 <= n <= reqs.len(),
        hashes.len() == reqs.len(),
    ensures
        forall|k: int|
            0 <= k < pending_writes(reqs, hashes, seen, n).len() ==> {
                let page = #[trigger] pending_writes(reqs, hashes, seen, n)[k];
                &&& !seen.contains(page.hash@)
                &&& exists|i: int|
                    0 <= i < n && page.hash == #[trigger] hashes[i] && page.data == reqs[i].data
                        && page.delta_base == reqs[i].delta_base
            },
    decreases n,
{
    if n > 0 {
        pending_hashes_are_unseen(reqs, hashes, seen, n - 1);
        let before = pending_writes(reqs, hashes, seen, n - 1);
        let after = pending_writes(reqs, hashes, seen, n);
        assert forall|k: int| 0 <= k < after.len() implies {
            let page = #[trigger] after[k];
            &&& !seen.contains(page.hash@)
            &&& exists|i: int|
                0 <= i < n && page.hash == #[trigger] hashes[i] && page.data == reqs[i].data
                    && page.delta_base == reqs[i].delta_base
        } by {
            if k < before.len() {
                assert(after[k] == before[k]);
                let page = before[k];
                let i: int = choose|i: int|
                    0 <= i < n - 1 && page.hash == #[trigger] hashes[i] && page.data
                        == reqs[i].data && page.delta_base == reqs[i].delta_base;
                assert(0 <= i < n && page.hash == hashes[i]);
            } else {
                assert(after[k].hash == hashes[n - 1]);
            }
        }
    }
}

/// No request is lost: the hash of each one was dealt with before or is left to store.
pub proof fn every_request_is_pending_or_seen<'a>(
    reqs: Seq<WriteRequest<'a>>,
    hashes: Seq<[u8; 32]>,
    seen: Set<Seq<u8>>,
    n: int,
)
    requires
        0 <= n <= reqs.len(),
        hashes.len() == reqs.len(),
    ensures
        forall|i: int|
            0 <= i < n ==> seen.contains((#[trigger] hashes[i])@) || pending_hashes(
                pending_writes(reqs, hashes, seen, n),
            ).contains(hashes[i]@),
    decreases n,
{
    if n > 0 {
        every_request_is_pending_or_seen(reqs, hashes, seen, n - 1);
        let before = pending_writes(reqs, hashes, seen, n - 1);
        let after = pending_writes(reqs, hashes, seen, n);
        assert forall|h: Seq<u8>| pending_hashes(before).contains(h) implies pending_hashes(
            after,
        ).contains(h) by {
            let k: int = choose|k: int| 0 <= k < before.len() && (#[trigger] before[k]).hash@ == h;
            assert(after[k] == before[k]);
        }
        if is_fresh(hashes, seen, n - 1) {
            assert(after[after.len() - 1].hash@ == hashes[n - 1]@);
        } else if n > 1 && hashes[n - 2]@ == hashes[n - 1]@ {
            assert(seen.contains(hashes[n - 2]@) || pending_hashes(before).contains(
                hashes[n - 2]@,
            ));
        }
    }
}

/// Once a transaction has dealt with every hash of a batch, the batch stores nothing.
pub proof fn seen_batch_stores_nothing<'a>(
    reqs: Seq<WriteRequest<'a>>,
    hashes: Seq<[u8; 32]>,
    seen: Set<Seq<u8>>,
    n: int,
)
    requires
        0 <= n <= reqs.len(),
        hashes.len() == reqs.len(),
        forall|i: int| 0 <= i < n ==> seen.contains((#[trigger] hashes[i])@),
    ensures
        pending_writes(reqs, hashes, seen, n).len() == 0,
    decreases n,
{
    if n > 0 {
        seen_batch_stores_nothing(reqs, hashes, seen, n - 1);
        assert(seen.contains(hashes[n - 1]@));
    }
}

/// Writing a batch a second time in one transaction stores nothing: the first time left all
/// its hashes among those that the transaction has dealt with.
pub proof fn writing_twice_stores_once<'a>(
    reqs: Seq<WriteRequest<'a>>,
    hashes: Seq<[u8; 32]>,
    seen: Set<Seq<u8>>,
    finished: Seq<WriteContext<'a>>,
    delta_bases: Seq<[u8; 32]>,
)
    requires
        hashes.len() == reqs.len(),
        same_pages(finished, pending_writes(reqs, hashes, seen, reqs.len() as int)),
    ensures
        pending_writes(
            reqs,
            hashes,
            seen.union(hash_views(delta_bases)).union(pending_hashes(finished)),
            reqs.len() as int,
        ).len() == 0,
{
    let n: int = reqs.len() as int;
    let planned = pending_writes(reqs, hashes, seen, n);
    let after = seen.union(hash_views(delta_bases)).union(pending_hashes(finished));
    every_request_is_pending_or_seen(reqs, hashes, seen, n);
    assert forall|i: int| 0 <= i < n implies after.contains((#[trigger] hashes[i])@) by {
        if pending_hashes(planned).contains(hashes[i]@) {
            let k: int = choose|k: int|
                0 <= k < planned.len() && (#[trigger] planned[k]).hash@ == hashes[i]@;
            assert(finished[k].hash == planned[k].hash);
        }
    }
    seen_batch_stores_nothing(reqs, hashes, after, n);
}

/// The end of a batch writes the index entry of every page, and the content of exactly
/// those pages whose content is not stored yet.
pub proof fn every_page_is_indexed<'a>(pending: Seq<WriteContext<'a>>, now: Duration, n: int)
    requires
        0 <= n <= pending.len(),
    ensures
        forall|i: int|
            0 <= i < n ==> {
                let page = #[trigger] pending[i];
                &&& final_mutations(pending, now, n).contains(
                    Mutation::StampContentIndex { hash: page.hash, now },
                )
                &&& !page.early_completion ==> final_mutations(pending, now, n).contains(
                    Mutation::SetPage { hash: page.hash, data: page.data },
                )
            },
        forall|m: Mutation<'a>| #[trigger]
            final_mutations(pending, now, n).contains(m) ==> exists|i: int|
                {
                    let page = #[trigger] pending[i];
                    &&& 0 <= i < n
                    &&& m == (Mutation::StampContentIndex { hash: page.hash, now }) || (
                    !page.early_completion && m == (Mutation::SetPage {
                        hash: page.hash,
                        data: page.data,
                    }))
                },
    decreases n,
{
    if n > 0 {
        every_page_is_indexed(pending, now, n - 1);
        let before = final_mutations(pending, now, n - 1);
        let after = final_mutations(pending, now, n);
        let page = pending[n - 1];
        let stamp = Mutation::StampContentIndex { hash: page.hash, now };
        let set = Mutation::SetPage { hash: page.hash, data: page.data };
        assert(after.last() == stamp);
        assert(after.contains(stamp));
        assert forall|m: Mutation<'a>| before.contains(m) implies after.contains(m) by {
            let k: int = choose|k: int| 0 <= k < before.len() && before[k] == m;
            assert(after[k] == m);
        }
        if !page.early_completion {
            assert(after[after.len() - 2] == set);
            assert(after.contains(set));
        }
        assert forall|m: Mutation<'a>| #[trigger] after.contains(m) implies exists|i: int|
            {
                let page = #[trigger] pending[i];
                &&& 0 <= i < n
                &&& m == (Mutation::StampContentIndex { hash: page.hash, now }) || (
                !page.early_completion && m == (Mutation::SetPage {
                    hash: page.hash,
                    data: page.data,
                }))
            } by {
            let k: int = choose|k: int| 0 <= k < after.len() && after[k] == m;
            if k < before.len() {
                assert(before[k] == m);
                assert(before.contains(m));
                let i: int = choose|i: int|
                    {
                        let page = #[trigger] pending[i];
                        &&& 0 <= i < n - 1
                        &&& m == (Mutation::StampContentIndex { hash: page.hash, now }) || (
                        !page.early_completion && m == (Mutation::SetPage {
                            hash: page.hash,
                            data: page.data,
                        }))
                    };
                assert(0 <= i < n);
                assert(pending[i] == pending[i]);
            } else {
                assert(pending[n - 1] == page);
            }
        }
    }
}

/// A content that is stored already is not stored again at the end of a batch.
pub proof fn stored_content_is_not_written_again<'a>(
    pending: Seq<WriteContext<'a>>,
    now: Duration,
    hash: [u8; 32],
    data: &'a [u8],
)
    requires
        forall|i: int|
            0 <= i < pending.len() && (#[trigger] pending[i]).hash == hash
                ==> pending[i].early_completion,
    ensures
        !final_mutations(pending, now, pending.len() as int).contains(
            Mutation::SetPage { hash, data },
        ),
{
    every_page_is_indexed(pending, now, pending.len() as int);
}

/// The contents that are stored, and which of them is encoded against which other.
pub ghost struct StoredContents {
    pub stored: Set<Seq<u8>>,
    pub delta_base: Map<Seq<u8>, Seq<u8>>,
}

/// Whoever follows the bases of a content gets down in `rank` with each step.
pub open spec fn ranks(delta_base: Map<Seq<u8>, Seq<u8>>, rank: spec_fn(Seq<u8>) -> nat) -> bool {
    forall|h: Seq<u8>| #[trigger]
        delta_base.contains_key(h) ==> rank(delta_base[h]) < rank(h)
}

impl StoredContents {
    /// Contents are encoded only against contents that are stored, and never, at any remove,
    /// against themselves.
    pub open spec fn wf(self) -> bool {
        &&& forall|h: Seq<u8>| #[trigger]
            self.delta_base.contains_key(h) ==> self.stored.contains(h) && self.stored.contains(
                self.delta_base[h],
            )
        &&& exists|rank: spec_fn(Seq<u8>) -> nat| ranks(self.delta_base, rank)
    }
}

/// What is stored after one more mutation.
pub open spec fn after_mutation(contents: StoredContents, m: Mutation) -> StoredContents {
    match m {
        Mutation::SetPage { hash, .. } => StoredContents {
            stored: contents.stored.insert(hash@),
            ..contents
        },
        Mutation::SetDelta { hash, .. } => StoredContents {
            stored: contents.stored.insert(hash@),
            ..contents
        },
        Mutation::SetDeltaReferrer { hash, base } => StoredContents {
            stored: contents.stored.insert(hash@),
            delta_base: contents.delta_base.insert(hash@, base@),
        },
        Mutation::StampContentIndex { .. } => contents,
    }
}

/// What is stored after some mutations.
pub open spec fn after_mutations(contents: StoredContents, ms: Seq<Mutation>) -> StoredContents
    decreases ms.len(),
{
    if ms.len() == 0 {
        contents
    } else {
        after_mutation(after_mutations(contents, ms.drop_last()), ms.last())
    }
}

/// `m` encodes a content, if it encodes any, that was not stored, against one that was.
pub open spec fn encodes_new_against_stored(before: StoredContents, m: Mutation) -> bool {
    m matches Mutation::SetDeltaReferrer { hash, base } ==> !before.stored.contains(hash@)
        && before.stored.contains(base@)
}

/// Whatever a batch writes, contents are never encoded against each other: as long as the pages
/// whose content is stored already are noted as such, and pages are encoded only against
/// contents that are stored. This is why a content that is stored already must not be encoded
/// anew.
#[verifier::rlimit(30)]
pub proof fn encodings_form_no_loops<'a>(
    before: StoredContents,
    pending: Seq<WriteContext<'a>>,
    encodings: Seq<Option<DeltaEncoding>>,
    encoded: Seq<WriteContext<'a>>,
    now: Duration,
)
    requires
        before.wf(),
        forall|i: int|
            0 <= i < pending.len() ==> ((#[trigger] pending[i]).early_completion
                <==> before.stored.contains(pending[i].hash@)),
        encodings_fit(pending, encodings),
        forall|i: int|
            0 <= i < pending.len() ==> ((#[trigger] encodings[i]) matches Some(encoding)
                ==> before.stored.contains(encoding.base@)),
        encoded_pages(pending, encodings, pending.len() as int, encoded),
    ensures
        after_mutations(
            before,
            batch_deltas(pending, encodings, now, pending.len() as int) + final_mutations(
                encoded,
                now,
                encoded.len() as int,
            ),
        ).wf(),
{
    let n: int = pending.len() as int;
    let deltas = batch_deltas(pending, encodings, now, n);
    let rest = final_mutations(encoded, now, n);
    let all = deltas + rest;
    lemma_batch_deltas(before, pending, encodings, now, n);
    every_page_is_indexed(encoded, now, n);
    assert forall|k: int| 0 <= k < all.len() implies encodes_new_against_stored(
        before,
        #[trigger] all[k],
    ) by {
        if k < deltas.len() {
            assert(all[k] == deltas[k]);
        } else {
            assert(all[k] == rest[k - deltas.len()]);
            assert(rest.contains(all[k]));
        }
    }
    lemma_edges_after(before, all);
    let after = after_mutations(before, all);
    let rank = choose|rank: spec_fn(Seq<u8>) -> nat| ranks(before.delta_base, rank);
    let raised = |h: Seq<u8>|
        if before.stored.contains(h) || !after.delta_base.contains_key(h) {
            rank(h)
        } else {
            rank(after.delta_base[h]) + 1
        };
    assert forall|h: Seq<u8>| #[trigger] after.delta_base.contains_key(h) implies raised(
        after.delta_base[h],
    ) < raised(h) by {
        if before.stored.contains(h) {
            assert(before.delta_base.contains_key(h));
        }
    }
    assert(ranks(after.delta_base, raised));
}

proof fn lemma_batch_deltas<'a>(
    before: StoredContents,
    pending: Seq<WriteContext<'a>>,
    encodings: Seq<Option<DeltaEncoding>>,
    now: Duration,
    n: int,
)
    requires
        0 <= n <= pending.len(),
        forall|i: int|
            0 <= i < pending.len() ==> ((#[trigger] pending[i]).early_completion
                <==> before.stored.contains(pending[i].hash@)),
        encodings_fit(pending, encodings),
        forall|i: int|
            0 <= i < pending.len() ==> ((#[trigger] encodings[i]) matches Some(encoding)
                ==> before.stored.contains(encoding.base@)),
    ensures
        forall|k: int|
            0 <= k < batch_deltas(pending, encodings, now, n).len() ==> encodes_new_against_stored(
                before,
                #[trigger] batch_deltas(pending, encodings, now, n)[k],
            ),
    decreases n,
{
    if n > 0 {
        lemma_batch_deltas(before, pending, encodings, now, n - 1);
        let had = batch_deltas(pending, encodings, now, n - 1);
        let has = batch_deltas(pending, encodings, now, n);
        assert forall|k: int| 0 <= k < has.len() implies encodes_new_against_stored(
            before,
            #[trigger] has[k],
        ) by {
            if k < had.len() {
                assert(has[k] == had[k]);
            } else {
                assert(encodings[n - 1] is Some);
                assert(!pending[n - 1].early_completion);
            }
        }
    }
}

proof fn lemma_edges_after(before: StoredContents, ms: Seq<Mutation>)
    requires
        before.wf(),
        forall|k: int|
            0 <= k < ms.len() ==> encodes_new_against_stored(before, #[trigger] ms[k]),
    ensures
        ({
            let after = after_mutations(before, ms);
            &&& forall|h: Seq<u8>|
                before.stored.contains(h) ==> #[trigger] after.stored.contains(h)
            &&& forall|h: Seq<u8>| #[trigger]
                after.delta_base.contains_key(h) ==> {
                    &&& after.stored.contains(h)
                    &&& before.stored.contains(after.delta_base[h])
                    &&& before.stored.contains(h) ==> before.delta_base.contains_key(h)
                        && after.delta_base[h] == before.delta_base[h]
                }
        }),
    decreases ms.len(),
{
    if ms.len() > 0 {
        lemma_edges_after(before, ms.drop_last());
        let had = after_mutations(before, ms.drop_last());
        let after = after_mutations(before, ms);
        assert(encodes_new_against_stored(before, ms[ms.len() - 1]));
        assert forall|h: Seq<u8>| before.stored.contains(h) implies #[trigger] after.stored.contains(
            h,
        ) by {
            assert(had.stored.contains(h));
        }
        assert forall|h: Seq<u8>| #[trigger] after.delta_base.contains_key(h) implies {
            &&& after.stored.contains(h)
            &&& before.stored.contains(after.delta_base[h])
            &&& before.stored.contains(h) ==> before.delta_base.contains_key(h)
                && after.delta_base[h] == before.delta_base[h]
        } by {
            if had.delta_base.contains_key(h) {
                assert(had.stored.contains(h));
            }
        }
    }
}

/// A batch starts with the pages that have to be stored, in the order of the requests: of each
/// run of equal hashes the first one, unless the transaction has dealt with the hash. Nothing
/// is taken to be stored at the start, and every request is answered by its hash.
pub proof fn fresh_batch_takes_nothing_as_stored<'a>(
    applier: &WriteApplier,
    reqs: &[WriteRequest<'a>],
    hashes: &Vec<[u8; 32]>,
    batch: WriteBatch<'a>,
)
    requires
        hashes@.len() == reqs@.len(),
        call_ensures(WriteApplier::plan_write, (applier, reqs, hashes), batch),
    ensures
        forall|k: int|
            0 <= k < batch.pending@.len() ==> !(#[trigger] batch.pending@[k]).early_completion,
        batch.delta_bases@.len() == 0,
        batch.responses@.len() == reqs@.len(),
        forall|i: int|
            0 <= i < reqs@.len() ==> (#[trigger] batch.responses@[i]).hash@ == hashes@[i]@,
        batch.pending@.map_values(|page: WriteContext<'a>| (page.hash, page.data, page.delta_base))
            == Seq::new(reqs@.len(), |i: int| i).filter_map(
            |i: int|
                if (i == 0 || hashes@[i - 1]@ != hashes@[i]@) && !applier.seen_hashes@.contains(
                    hashes@[i]@,
                ) {
                    Some((hashes@[i], reqs@[i].data, reqs@[i].delta_base))
                } else {
                    None
                },
        ),
{
    let n: int = reqs@.len() as int;
    lemma_pending_in_order(reqs@, hashes@, applier.seen_hashes@, n);
    assert(Seq::new(n as nat, |i: int| i) =~= Seq::new(reqs@.len(), |i: int| i));
}

proof fn lemma_pending_in_order<'a>(
    reqs: Seq<WriteRequest<'a>>,
    hashes: Seq<[u8; 32]>,
    seen: Set<Seq<u8>>,
    n: int,
)
    requires
        0 <= n <= reqs.len(),
        hashes.len() == reqs.len(),
    ensures
        forall|k: int|
            0 <= k < pending_writes(reqs, hashes, seen, n).len() ==> !(
            #[trigger] pending_writes(reqs, hashes, seen, n)[k]).early_completion,
        pending_writes(reqs, hashes, seen, n).map_values(
            |page: WriteContext<'a>| (page.hash, page.data, page.delta_base),
        ) == Seq::new(n as nat, |i: int| i).filter_map(
            |i: int|
                if (i == 0 || hashes[i - 1]@ != hashes[i]@) && !seen.contains(hashes[i]@) {
                    Some((hashes[i], reqs[i].data, reqs[i].delta_base))
                } else {
                    None
                },
        ),
    decreases n,
{
    let f = |i: int|
        if (i == 0 || hashes[i - 1]@ != hashes[i]@) && !seen.contains(hashes[i]@) {
            Some((hashes[i], reqs[i].data, reqs[i].delta_base))
        } else {
            None
        };
    let g = |page: WriteContext<'a>| (page.hash, page.data, page.delta_base);
    let places = Seq::new(n as nat, |i: int| i);
    let after = pending_writes(reqs, hashes, seen, n);
    if n > 0 {
        lemma_pending_in_order(reqs, hashes, seen, n - 1);
        let before = pending_writes(reqs, hashes, seen, n - 1);
        assert(places.drop_last() =~= Seq::new((n - 1) as nat, |i: int| i));
        assert(before.map_values(g) == places.drop_last().filter_map(f));
        assert(after.map_values(g) =~= places.filter_map(f)) by {
            if f(n - 1) is Some {
                assert(after.map_values(g) =~= before.map_values(g) + seq![f(n - 1)->0]);
            } else {
                assert(after =~= before);
            }
        }
        assert forall|k: int| 0 <= k < after.len() implies !(
        #[trigger] after[k]).early_completion by {
            if k < before.len() {
                assert(after[k] == before[k]);
            }
        }
    } else {
        assert(after.map_values(g) =~= places.filter_map(f));
    }
}

/// A batch is started exactly if no page is larger than the store takes, and each response holds
/// the hash of its content. Otherwise the first page that is too large is named, with its size
/// and the limit.
pub proof fn only_pages_too_large_are_refused<'a>(
    applier: &WriteApplier,
    reqs: &[WriteRequest<'a>],
    r: Result<WriteBatch<'a>, PageTooLarge>,
)
    requires
        call_ensures(WriteApplier::apply_write, (applier, reqs), r),
    ensures
        match r {
            Ok(batch) => {
                &&& forall|i: int|
                    0 <= i < reqs@.len() ==> (#[trigger] reqs@[i]).data@.len()
                        <= applier.max_page_size
                &&& batch.responses@.len() == reqs@.len()
                &&& forall|i: int|
                    0 <= i < reqs@.len() ==> (#[trigger] batch.responses@[i]).hash@
                        == crate::outside::blake3_hash(reqs@[i].data@)
            },
            Err(e) => {
                &&& e.limit == applier.max_page_size
                &&& exists|i: int|
                    {
                        &&& 0 <= i < reqs@.len()
                        &&& (#[trigger] reqs@[i]).data@.len() > applier.max_page_size
                        &&& e.len == reqs@[i].data@.len()
                        &&& forall|j: int|
                            0 <= j < i ==> (#[trigger] reqs@[j]).data@.len()
                                <= applier.max_page_size
                    }
            },
        },
{
    if r is Ok {
        let batch = r->Ok_0;
        let hashes = choose|hashes: Seq<[u8; 32]>|
            {
                &&& hashes_requests(hashes, reqs@)
                &&& responds(batch.responses@, hashes)
                &&& batch.pending@ == #[trigger] pending_writes(
                    reqs@,
                    hashes,
                    applier.seen_hashes@,
                    reqs@.len() as int,
                )
            };
        assert forall|i: int| 0 <= i < reqs@.len() implies (#[trigger] batch.responses@[i]).hash@
            == crate::outside::blake3_hash(reqs@[i].data@) by {
            assert(hashes[i]@ == crate::outside::blake3_hash(reqs@[i].data@));
        }
    }
}

/// Whether a page of a batch is stored already is noted of that page alone, and what was noted
/// once stays.
pub proof fn noting_one_page_leaves_the_others<'a>(
    batch: &mut WriteBatch<'a>,
    i: usize,
    present: bool,
)
    requires
        i < old(batch).pending@.len(),
        call_ensures(WriteBatch::note_indexed, (batch, i, present), ()),
    ensures
        final(batch).pending@.len() == old(batch).pending@.len(),
        forall|k: int|
            0 <= k < old(batch).pending@.len() ==> {
                let (a, b) = (old(batch).pending@[k], #[trigger] final(batch).pending@[k]);
                &&& b.hash == a.hash
                &&& b.data == a.data
                &&& b.delta_base == a.delta_base
                &&& b.early_completion <==> a.early_completion || (k == i && present)
            },
        final(batch).responses@ == old(batch).responses@,
        final(batch).delta_bases@ == old(batch).delta_bases@,
{
}

/// An encoding is asked for exactly for the pages that name a base and are not stored, and
/// against that base.
pub proof fn stored_pages_are_not_encoded<'a>(
    batch: &WriteBatch<'a>,
    i: usize,
    r: Option<u32>,
)
    requires
        i < batch.pending@.len(),
        call_ensures(WriteBatch::delta_request, (batch, i), r),
    ensures
        batch.pending@[i as int].early_completion ==> r is None,
        !batch.pending@[i as int].early_completion ==> r == batch.pending@[i as int].delta_base,
{
}

/// An encoding is stored under the hash of its page, along with the content that it is made
/// against, whose index entry is renewed. From then on the page counts as stored, and no other
/// does that did not before. Without an encoding nothing is written and nothing changes.
pub proof fn encoded_page_counts_as_stored<'a>(
    batch: &mut WriteBatch<'a>,
    i: usize,
    encoding: Option<DeltaEncoding>,
    now: Duration,
    r: Vec<Mutation<'a>>,
)
    requires
        i < old(batch).pending@.len(),
        !old(batch).pending@[i as int].early_completion,
        call_ensures(WriteBatch::note_delta, (batch, i, encoding, now), r),
    ensures
        final(batch).pending@.len() == old(batch).pending@.len(),
        forall|k: int|
            0 <= k < old(batch).pending@.len() ==> {
                let (a, b) = (old(batch).pending@[k], #[trigger] final(batch).pending@[k]);
                &&& b.hash == a.hash
                &&& b.data == a.data
                &&& b.delta_base == a.delta_base
                &&& b.early_completion <==> a.early_completion || (k == i && encoding is Some)
            },
        final(batch).responses@ == old(batch).responses@,
        encoding is None ==> r@.len() == 0 && final(batch).delta_bases@ == old(batch).delta_bases@,
        encoding matches Some(delta) ==> {
            let hash = old(batch).pending@[i as int].hash;
            &&& r@.len() == 3
            &&& r@[0] == (Mutation::SetDelta { hash, encoded: delta.encoded })
            &&& r@[1] == (Mutation::SetDeltaReferrer { hash, base: delta.base })
            &&& r@[2] == (Mutation::StampContentIndex { hash: delta.base, now })
            &&& final(batch).delta_bases@ == old(batch).delta_bases@.push(delta.base)
        },
{
}

/// The encodings of a whole batch are stored page by page, in order, as those of single pages
/// are.
pub proof fn encodings_of_a_batch_are_stored_in_order<'a>(
    batch: &mut WriteBatch<'a>,
    encodings: Vec<Option<DeltaEncoding>>,
    now: Duration,
    r: Vec<Mutation<'a>>,
)
    requires
        encodings@.len() == old(batch).pending@.len(),
        call_ensures(WriteBatch::note_deltas, (batch, encodings, now), r),
    ensures
        final(batch).pending@.len() == old(batch).pending@.len(),
        forall|k: int|
            0 <= k < old(batch).pending@.len() ==> {
                let (a, b) = (old(batch).pending@[k], #[trigger] final(batch).pending@[k]);
                &&& b.hash == a.hash
                &&& b.data == a.data
                &&& b.delta_base == a.delta_base
                &&& b.early_completion <==> a.early_completion || encodings@[k] is Some
            },
        final(batch).responses@ == old(batch).responses@,
        final(batch).delta_bases@ == old(batch).delta_bases@ + encodings@.filter_map(
            |encoding: Option<DeltaEncoding>|
                match encoding {
                    Some(delta) => Some(delta.base),
                    None => None,
                },
        ),
        r@ == Seq::new(encodings@.len(), |k: int| k).flat_map(
            |k: int|
                match encodings@[k] {
                    Some(delta) => seq![
                        Mutation::SetDelta {
                            hash: old(batch).pending@[k].hash,
                            encoded: delta.encoded,
                        },
                        Mutation::SetDeltaReferrer {
                            hash: old(batch).pending@[k].hash,
                            base: delta.base,
                        },
                        Mutation::StampContentIndex { hash: delta.base, now },
                    ],
                    None => Seq::empty(),
                },
        ),
{
    let n: int = encodings@.len() as int;
    assert(encodings@.take(n) =~= encodings@);
    lemma_encoding_bases_in_order(encodings@, n);
    lemma_batch_deltas_in_order(old(batch).pending@, encodings@, now, n);
    assert(Seq::new(n as nat, |k: int| k) =~= Seq::new(encodings@.len(), |k: int| k));
}

proof fn lemma_encoding_bases_in_order(encodings: Seq<Option<DeltaEncoding>>, n: int)
    requires
        0 <= n <= encodings.len(),
    ensures
        encoding_bases(encodings, n) == encodings.take(n).filter_map(
            |encoding: Option<DeltaEncoding>|
                match encoding {
                    Some(delta) => Some(delta.base),
                    None => None,
                },
        ),
    decreases n,
{
    let f = |encoding: Option<DeltaEncoding>|
        match encoding {
            Some(delta) => Some(delta.base),
            None => None,
        };
    if n > 0 {
        lemma_encoding_bases_in_order(encodings, n - 1);
        assert(encodings.take(n).drop_last() =~= encodings.take(n - 1));
        assert(encoding_bases(encodings, n) =~= encodings.take(n).filter_map(f));
    } else {
        assert(encoding_bases(encodings, n) =~= encodings.take(n).filter_map(f));
    }
}

proof fn lemma_batch_deltas_in_order<'a>(
    pending: Seq<WriteContext<'a>>,
    encodings: Seq<Option<DeltaEncoding>>,
    now: Duration,
    n: int,
)
    requires
        0 <= n <= pending.len(),
        encodings.len() == pending.len(),
    ensures
        batch_deltas(pending, encodings, now, n) == Seq::new(n as nat, |k: int| k).flat_map(
            |k: int|
                match encodings[k] {
                    Some(delta) => seq![
                        Mutation::SetDelta { hash: pending[k].hash, encoded: delta.encoded },
                        Mutation::SetDeltaReferrer { hash: pending[k].hash, base: delta.base },
                        Mutation::StampContentIndex { hash: delta.base, now },
                    ],
                    None => Seq::empty(),
                },
        ),
    decreases n,
{
    let f = |k: int|
        match encodings[k] {
            Some(delta) => seq![
                Mutation::SetDelta { hash: pending[k].hash, encoded: delta.encoded },
                Mutation::SetDeltaReferrer { hash: pending[k].hash, base: delta.base },
                Mutation::StampContentIndex { hash: delta.base, now },
            ],
            None => Seq::empty(),
        };
    let places = Seq::new(n as nat, |k: int| k);
    if n > 0 {
        lemma_batch_deltas_in_order(pending, encodings, now, n - 1);
        let fewer = Seq::new((n - 1) as nat, |k: int| k);
        assert(places =~= fewer.push(n - 1));
        fewer.lemma_flat_map_push(f, n - 1);
        assert(batch_deltas(pending, encodings, now, n) =~= places.flat_map(f));
    } else {
        assert(places.map_values(f) =~= Seq::empty());
        assert(batch_deltas(pending, encodings, now, n) =~= places.flat_map(f));
    }
}

/// The end of a batch writes, page by page and in order, the content unless it is stored, and
/// then the index entry. From then on the transaction has dealt with the hash of every page and
/// of every base, and with no other that it had not dealt with before.
pub proof fn finished_batch_stores_what_is_not_stored<'a>(
    applier: &mut WriteApplier,
    batch: WriteBatch<'a>,
    r: (Vec<Mutation<'a>>, Vec<WriteResponse>),
)
    requires
        call_ensures(WriteApplier::finish, (applier, batch), r),
    ensures
        r.0@ == batch.pending@.flat_map(
            |page: WriteContext<'a>|
                if page.early_completion {
                    seq![Mutation::StampContentIndex { hash: page.hash, now: old(applier).now }]
                } else {
                    seq![
                        Mutation::SetPage { hash: page.hash, data: page.data },
                        Mutation::StampContentIndex { hash: page.hash, now: old(applier).now },
                    ]
                },
        ),
        r.1@ == batch.responses@,
        forall|h: Seq<u8>| #[trigger]
            final(applier).seen_hashes@.contains(h) <==> {
                ||| old(applier).seen_hashes@.contains(h)
                ||| exists|k: int|
                    0 <= k < batch.pending@.len() && (#[trigger] batch.pending@[k]).hash@ == h
                ||| exists|k: int|
                    0 <= k < batch.delta_bases@.len() && (#[trigger] batch.delta_bases@[k])@ == h
            },
        final(applier).ns_id@ == old(applier).ns_id@,
        final(applier).now == old(applier).now,
        final(applier).max_page_size == old(applier).max_page_size,
{
    let n: int = batch.pending@.len() as int;
    lemma_final_mutations_in_order(batch.pending@, old(applier).now, n);
    assert(batch.pending@.take(n) =~= batch.pending@);
}

proof fn lemma_final_mutations_in_order<'a>(
    pending: Seq<WriteContext<'a>>,
    now: Duration,
    n: int,
)
    requires
        0 <= n <= pending.len(),
    ensures
        final_mutations(pending, now, n) == pending.take(n).flat_map(
            |page: WriteContext<'a>|
                if page.early_completion {
                    seq![Mutation::StampContentIndex { hash: page.hash, now }]
                } else {
                    seq![
                        Mutation::SetPage { hash: page.hash, data: page.data },
                        Mutation::StampContentIndex { hash: page.hash, now },
                    ]
                },
        ),
    decreases n,
{
    let f = |page: WriteContext<'a>|
        if page.early_completion {
            seq![Mutation::StampContentIndex { hash: page.hash, now }]
        } else {
            seq![
                Mutation::SetPage { hash: page.hash, data: page.data },
                Mutation::StampContentIndex { hash: page.hash, now },
            ]
        };
    if n > 0 {
        lemma_final_mutations_in_order(pending, now, n - 1);
        assert(pending.take(n) =~= pending.take(n - 1).push(pending[n - 1]));
        pending.take(n - 1).lemma_flat_map_push(f, pending[n - 1]);
        assert(final_mutations(pending, now, n) =~= pending.take(n).flat_map(f));
    } else {
        assert(pending.take(n).map_values(f) =~= Seq::empty());
        assert(final_mutations(pending, now, n) =~= pending.take(n).flat_map(f));
    }
}

/// The first write of a store's own transaction starts from nothing: no hash was dealt with, the
/// batch takes nothing as stored, and the applier has the namespace, the time and the limit that
/// were asked for.
pub proof fn own_transaction_starts_from_nothing<'a>(
    core: &Core,
    ns_id: [u8; 10],
    now: Duration,
    max_page_size: usize,
    reqs: &[WriteRequest<'a>],
    r: Result<(WriteApplier, WriteBatch<'a>), PageTooLarge>,
    applier: &WriteApplier,
    same: Result<WriteBatch<'a>, PageTooLarge>,
)
    requires
        call_ensures(Core::write_pages, (core, ns_id, now, max_page_size, reqs), r),
        applier.max_page_size == max_page_size,
        forall|h: Seq<u8>| !#[trigger] applier.seen_hashes@.contains(h),
        call_ensures(WriteApplier::apply_write, (applier, reqs), same),
    ensures
        match (r, same) {
            (Ok((own, batch)), Ok(other)) => {
                &&& own.ns_id@ == ns_id@
                &&& own.now == now
                &&& own.max_page_size == max_page_size
                &&& forall|h: Seq<u8>| !#[trigger] own.seen_hashes@.contains(h)
                &&& batch.delta_bases@.len() == 0
                &&& batch.pending@.len() == other.pending@.len()
                &&& forall|k: int|
                    0 <= k < batch.pending@.len() ==> {
                        let (a, b) = (#[trigger] batch.pending@[k], other.pending@[k]);
                        &&& a.hash@ == b.hash@
                        &&& a.data == b.data
                        &&& a.delta_base == b.delta_base
                        &&& !a.early_completion
                    }
                &&& batch.responses@.len() == other.responses@.len()
                &&& forall|i: int|
                    0 <= i < reqs@.len() ==> (#[trigger] batch.responses@[i]).hash@
                        == other.responses@[i].hash@
            },
            (Err(a), Err(b)) => a == b,
            _ => false,
        },
{
    let n: int = reqs@.len() as int;
    assert(applier.seen_hashes@ =~= Set::<Seq<u8>>::empty());
    if r is Ok && same is Ok {
        let (batch, other) = (r->Ok_0.1, same->Ok_0);
        let a = choose|hashes: Seq<[u8; 32]>|
            {
                &&& hashes_requests(hashes, reqs@)
                &&& responds(batch.responses@, hashes)
                &&& batch.pending@ == #[trigger] pending_writes(
                    reqs@,
                    hashes,
                    Set::<Seq<u8>>::empty(),
                    n,
                )
            };
        let b = choose|hashes: Seq<[u8; 32]>|
            {
                &&& hashes_requests(hashes, reqs@)
                &&& responds(other.responses@, hashes)
                &&& other.pending@ == #[trigger] pending_writes(
                    reqs@,
                    hashes,
                    applier.seen_hashes@,
                    n,
                )
            };
        lemma_pending_goes_by_hashes(reqs@, a, b, Set::<Seq<u8>>::empty(), n);
        lemma_pending_in_order(reqs@, a, Set::<Seq<u8>>::empty(), n);
        assert forall|i: int| 0 <= i < reqs@.len() implies (#[trigger] batch.responses@[i]).hash@
            == other.responses@[i].hash@ by {
            assert(a[i]@ == b[i]@);
            assert(other.responses@[i].hash@ == b[i]@);
        }
    }
    if r is Err && same is Err {
        let (x, y) = (r->Err_0, same->Err_0);
        let i: int = choose|i: int|
            {
                &&& 0 <= i < reqs.len()
                &&& x.len == (#[trigger] reqs@[i]).data@.len()
                &&& x.len > max_page_size
                &&& forall|j: int| 0 <= j < i ==> (#[trigger] reqs@[j]).data@.len() <= max_page_size
            };
        let j: int = choose|i: int|
            {
                &&& 0 <= i < reqs.len()
                &&& y.len == (#[trigger] reqs@[i]).data@.len()
                &&& y.len > max_page_size
                &&& forall|j: int| 0 <= j < i ==> (#[trigger] reqs@[j]).data@.len() <= max_page_size
            };
        assert(i == j) by {
            if i < j {
                assert(reqs@[i].data@.len() <= max_page_size);
            }
            if j < i {
                assert(reqs@[j].data@.len() <= max_page_size);
            }
        }
    }
}

proof fn lemma_pending_goes_by_hashes<'a>(
    reqs: Seq<WriteRequest<'a>>,
    a: Seq<[u8; 32]>,
    b: Seq<[u8; 32]>,
    seen: Set<Seq<u8>>,
    n: int,
)
    requires
        0 <= n <= reqs.len(),
        hashes_requests(a, reqs),
        hashes_requests(b, reqs),
    ensures
        pending_writes(reqs, a, seen, n).len() == pending_writes(reqs, b, seen, n).len(),
        forall|k: int|
            0 <= k < pending_writes(reqs, a, seen, n).len() ==> {
                let (x, y) = (
                    #[trigger] pending_writes(reqs, a, seen, n)[k],
                    pending_writes(reqs, b, seen, n)[k],
                );
                &&& x.hash@ == y.hash@
                &&& x.data == y.data
                &&& x.delta_base == y.delta_base
            },
    decreases n,
{
    if n > 0 {
        lemma_pending_goes_by_hashes(reqs, a, b, seen, n - 1);
        assert(a[n - 1]@ == b[n - 1]@);
        if n > 1 {
            assert(a[n - 2]@ == b[n - 2]@);
        }
        let (x, y) = (pending_writes(reqs, a, seen, n - 1), pending_writes(reqs, b, seen, n - 1));
        let (s, t) = (pending_writes(reqs, a, seen, n), pending_writes(reqs, b, seen, n));
        assert forall|k: int| 0 <= k < s.len() implies {
            let (p, q) = (#[trigger] s[k], t[k]);
            &&& p.hash@ == q.hash@
            &&& p.data == q.data
            &&& p.delta_base == q.delta_base
        } by {
            if k < x.len() {
                assert(s[k] == x[k] && t[k] == y[k]);
            }
        }
    }
}

/// From the start of a batch to its end. `indexed[k]` takes in whether the content index has
/// page `k`, one page after the other; `encoded` takes in the encodings that the pages were
/// given; and then the batch ends.
///
/// Every request whose hash the transaction has not dealt with, and which opens a run of equal
/// hashes, has its page indexed at the end; and if its content was reported absent and it was
/// given no encoding, the content is stored there, under its hash. No other content is stored:
/// none that was reported present, none that is encoded, and none of a request whose hash the
/// transaction has dealt with.
#[verifier::rlimit(40)]
pub proof fn absent_contents_are_stored_and_indexed<'a>(
    applier: &mut WriteApplier,
    reqs: &[WriteRequest<'a>],
    started: Result<WriteBatch<'a>, PageTooLarge>,
    indexed: Seq<&mut WriteBatch<'a>>,
    present: Seq<bool>,
    encoded: &mut WriteBatch<'a>,
    encodings: Vec<Option<DeltaEncoding>>,
    now: Duration,
    deltas: Vec<Mutation<'a>>,
    r: (Vec<Mutation<'a>>, Vec<WriteResponse>),
)
    requires
        call_ensures(WriteApplier::apply_write, (&*applier, reqs), started),
        started is Ok,
        indexed.len() == started->Ok_0.pending@.len(),
        present.len() == indexed.len(),
        indexed.len() <= usize::MAX,
        forall|k: int|
            0 <= k < indexed.len() ==> {
                &&& *#[trigger] indexed[k] == if k == 0 {
                    started->Ok_0
                } else {
                    *final(indexed[k - 1])
                }
                &&& call_ensures(
                    WriteBatch::note_indexed,
                    (indexed[k], k as usize, present[k]),
                    (),
                )
            },
        *old(encoded) == if indexed.len() == 0 {
            started->Ok_0
        } else {
            *final(indexed.last())
        },
        call_requires(WriteBatch::note_deltas, (encoded, encodings, now)),
        call_ensures(WriteBatch::note_deltas, (encoded, encodings, now), deltas),
        call_ensures(WriteApplier::finish, (applier, *final(encoded)), r),
    ensures
        ({
            let pages = started->Ok_0.pending@;
            let seen = old(applier).seen_hashes@;
            let hash = |i: int| crate::outside::blake3_hash(reqs@[i].data@);
            &&& forall|i: int|
                0 <= i < reqs@.len() && !seen.contains(#[trigger] hash(i)) && (i == 0 || hash(i - 1)
                    != hash(i)) ==> exists|k: int|
                    {
                        &&& 0 <= k < pages.len()
                        &&& (#[trigger] pages[k]).hash@ == hash(i)
                        &&& pages[k].data == reqs@[i].data
                        &&& r.0@.contains(
                            Mutation::StampContentIndex {
                                hash: pages[k].hash,
                                now: old(applier).now,
                            },
                        )
                        &&& !present[k] && encodings@[k] is None ==> r.0@.contains(
                            Mutation::SetPage { hash: pages[k].hash, data: reqs@[i].data },
                        )
                    }
            &&& forall|h: [u8; 32], data: &'a [u8]| #[trigger]
                r.0@.contains(Mutation::SetPage { hash: h, data }) ==> {
                    &&& !seen.contains(h@)
                    &&& exists|k: int|
                        {
                            &&& 0 <= k < pages.len()
                            &&& (#[trigger] pages[k]).hash == h
                            &&& pages[k].data == data
                            &&& h@ == crate::outside::blake3_hash(data@)
                            &&& !present[k]
                            &&& encodings@[k] is None
                        }
                }
            &&& forall|i: int|
                0 <= i < reqs@.len() ==> final(applier).seen_hashes@.contains(#[trigger] hash(i))
            &&& r.1@.len() == reqs@.len()
            &&& forall|i: int| 0 <= i < reqs@.len() ==> (#[trigger] r.1@[i]).hash@ == hash(i)
        }),
{
    let n: int = reqs@.len() as int;
    let batch = started->Ok_0;
    let pages = batch.pending@;
    let seen = old(applier).seen_hashes@;
    let hash = |i: int| crate::outside::blake3_hash(reqs@[i].data@);
    let hashes = choose|hashes: Seq<[u8; 32]>|
        {
            &&& hashes_requests(hashes, reqs@)
            &&& responds(batch.responses@, hashes)
            &&& batch.pending@ == #[trigger] pending_writes(reqs@, hashes, seen, n)
        };
    lemma_pending_in_order(reqs@, hashes, seen, n);
    lemma_noted_pages(batch, indexed, present, indexed.len() as int);
    let last = final(encoded).pending@;
    assert(settles(pages, present, encodings@, last)) by {
        assert forall|k: int| 0 <= k < pages.len() implies {
            let page = #[trigger] last[k];
            &&& page.hash == pages[k].hash
            &&& page.data == pages[k].data
            &&& page.early_completion <==> present[k] || encodings@[k] is Some
        } by {
            let had = old(encoded).pending@[k];
            assert(!pages[k].early_completion);
            assert(had.hash == pages[k].hash);
        }
    }
    let now = old(applier).now;
    assert forall|i: int|
        0 <= i < n && !seen.contains(#[trigger] hash(i)) && (i == 0 || hash(i - 1) != hash(
            i,
        )) implies exists|k: int|
        {
            &&& 0 <= k < pages.len()
            &&& (#[trigger] pages[k]).hash@ == hash(i)
            &&& pages[k].data == reqs@[i].data
            &&& r.0@.contains(Mutation::StampContentIndex { hash: pages[k].hash, now })
            &&& !present[k] && encodings@[k] is None ==> r.0@.contains(
                Mutation::SetPage { hash: pages[k].hash, data: reqs@[i].data },
            )
        } by {
        assert(hashes[i]@ == hash(i));
        if i > 0 {
            assert(hashes[i - 1]@ == hash(i - 1));
        }
        let k: int = lemma_absent_content_is_stored(
            reqs@,
            hashes,
            seen,
            present,
            encodings@,
            last,
            now,
            i,
        );
        assert(pages[k].hash@ == hash(i));
    }
    assert forall|h: [u8; 32], data: &'a [u8]| #[trigger]
        r.0@.contains(Mutation::SetPage { hash: h, data }) implies {
        &&& !seen.contains(h@)
        &&& exists|k: int|
            {
                &&& 0 <= k < pages.len()
                &&& (#[trigger] pages[k]).hash == h
                &&& pages[k].data == data
                &&& h@ == crate::outside::blake3_hash(data@)
                &&& !present[k]
                &&& encodings@[k] is None
            }
    } by {
        let k: int = lemma_stored_content_was_absent(
            reqs@,
            hashes,
            seen,
            present,
            encodings@,
            last,
            now,
            h,
            data,
        );
        assert(pages[k].hash == h);
    }
    assert forall|i: int| 0 <= i < n implies final(applier).seen_hashes@.contains(
        #[trigger] hash(i),
    ) by {
        assert(hash(i) == hashes[i]@);
        lemma_request_is_dealt_with(reqs@, hashes, seen, present, encodings@, last, i);
    }
    assert(r.1@ == batch.responses@);
    assert forall|i: int| 0 <= i < n implies (#[trigger] r.1@[i]).hash@ == hash(i) by {
        assert(batch.responses@[i].hash@ == hashes[i]@);
    }
}

/// `last` are the pages once it was taken in which of them are indexed, and which encoded.
spec fn settles<'a>(
    pages: Seq<WriteContext<'a>>,
    present: Seq<bool>,
    encodings: Seq<Option<DeltaEncoding>>,
    last: Seq<WriteContext<'a>>,
) -> bool {
    &&& last.len() == pages.len()
    &&& forall|k: int|
        0 <= k < pages.len() ==> {
            let page = #[trigger] last[k];
            &&& page.hash == pages[k].hash
            &&& page.data == pages[k].data
            &&& page.early_completion <==> present[k] || encodings[k] is Some
        }
}

proof fn lemma_absent_content_is_stored<'a>(
    reqs: Seq<WriteRequest<'a>>,
    hashes: Seq<[u8; 32]>,
    seen: Set<Seq<u8>>,
    present: Seq<bool>,
    encodings: Seq<Option<DeltaEncoding>>,
    last: Seq<WriteContext<'a>>,
    now: Duration,
    i: int,
) -> (k: int)
    requires
        hashes_requests(hashes, reqs),
        settles(pending_writes(reqs, hashes, seen, reqs.len() as int), present, encodings, last),
        0 <= i < reqs.len(),
        is_fresh(hashes, seen, i),
    ensures
        ({
            let pages = pending_writes(reqs, hashes, seen, reqs.len() as int);
            let written = final_mutations(last, now, last.len() as int);
            &&& 0 <= k < pages.len()
            &&& pages[k].hash == hashes[i]
            &&& pages[k].data == reqs[i].data
            &&& written.contains(Mutation::StampContentIndex { hash: pages[k].hash, now })
            &&& !present[k] && encodings[k] is None ==> written.contains(
                Mutation::SetPage { hash: pages[k].hash, data: reqs[i].data },
            )
        }),
{
    let n: int = reqs.len() as int;
    let pages = pending_writes(reqs, hashes, seen, n);
    every_page_is_indexed(last, now, last.len() as int);
    lemma_fresh_request_is_pending(reqs, hashes, seen, n, i);
    let k: int = choose|k: int|
        {
            &&& 0 <= k < pages.len()
            &&& (#[trigger] pages[k]).hash == hashes[i]
            &&& pages[k].data == reqs[i].data
        };
    assert(last[k].hash == pages[k].hash);
    k
}

proof fn lemma_stored_content_was_absent<'a>(
    reqs: Seq<WriteRequest<'a>>,
    hashes: Seq<[u8; 32]>,
    seen: Set<Seq<u8>>,
    present: Seq<bool>,
    encodings: Seq<Option<DeltaEncoding>>,
    last: Seq<WriteContext<'a>>,
    now: Duration,
    hash: [u8; 32],
    data: &'a [u8],
) -> (k: int)
    requires
        hashes_requests(hashes, reqs),
        settles(pending_writes(reqs, hashes, seen, reqs.len() as int), present, encodings, last),
        final_mutations(last, now, last.len() as int).contains(Mutation::SetPage { hash, data }),
    ensures
        ({
            let pages = pending_writes(reqs, hashes, seen, reqs.len() as int);
            &&& !seen.contains(hash@)
            &&& 0 <= k < pages.len()
            &&& pages[k].hash == hash
            &&& pages[k].data == data
            &&& hash@ == crate::outside::blake3_hash(data@)
            &&& !present[k]
            &&& encodings[k] is None
        }),
{
    let k: int = lemma_set_page_is_of_a_page(last, now, hash, data);
    assert(last[k].hash == hash);
    lemma_pending_page_is_of_a_request(reqs, hashes, seen, reqs.len() as int, k);
    k
}

proof fn lemma_set_page_is_of_a_page<'a>(
    last: Seq<WriteContext<'a>>,
    now: Duration,
    hash: [u8; 32],
    data: &'a [u8],
) -> (k: int)
    requires
        final_mutations(last, now, last.len() as int).contains(Mutation::SetPage { hash, data }),
    ensures
        0 <= k < last.len(),
        last[k].hash == hash,
        last[k].data == data,
        !last[k].early_completion,
{
    let m = Mutation::SetPage { hash, data };
    every_page_is_indexed(last, now, last.len() as int);
    choose|k: int|
        {
            let page = #[trigger] last[k];
            &&& 0 <= k < last.len()
            &&& m == (Mutation::StampContentIndex { hash: page.hash, now }) || (
            !page.early_completion && m == (Mutation::SetPage { hash: page.hash, data: page.data }))
        }
}

proof fn lemma_pending_page_is_of_a_request<'a>(
    reqs: Seq<WriteRequest<'a>>,
    hashes: Seq<[u8; 32]>,
    seen: Set<Seq<u8>>,
    n: int,
    k: int,
)
    requires
        0 <= n <= reqs.len(),
        hashes_requests(hashes, reqs),
        0 <= k < pending_writes(reqs, hashes, seen, n).len(),
    ensures
        ({
            let page = pending_writes(reqs, hashes, seen, n)[k];
            &&& !seen.contains(page.hash@)
            &&& page.hash@ == crate::outside::blake3_hash(page.data@)
        }),
    decreases n,
{
    let before = pending_writes(reqs, hashes, seen, n - 1);
    if n > 0 {
        if k < before.len() {
            lemma_pending_page_is_of_a_request(reqs, hashes, seen, n - 1, k);
        } else {
            assert(hashes[n - 1]@ == crate::outside::blake3_hash(reqs[n - 1].data@));
        }
    }
}

proof fn lemma_request_is_dealt_with<'a>(
    reqs: Seq<WriteRequest<'a>>,
    hashes: Seq<[u8; 32]>,
    seen: Set<Seq<u8>>,
    present: Seq<bool>,
    encodings: Seq<Option<DeltaEncoding>>,
    last: Seq<WriteContext<'a>>,
    i: int,
)
    requires
        hashes_requests(hashes, reqs),
        settles(pending_writes(reqs, hashes, seen, reqs.len() as int), present, encodings, last),
        0 <= i < reqs.len(),
    ensures
        seen.contains(hashes[i]@) || pending_hashes(last).contains(hashes[i]@),
{
    let n: int = reqs.len() as int;
    let pages = pending_writes(reqs, hashes, seen, n);
    every_request_is_pending_or_seen(reqs, hashes, seen, n);
    if !seen.contains(hashes[i]@) {
        assert(pending_hashes(pages).contains(hashes[i]@));
        let k: int = choose|k: int|
            0 <= k < pages.len() && (#[trigger] pages[k]).hash@ == hashes[i]@;
        assert(last[k].hash == pages[k].hash);
    }
}

proof fn lemma_noted_pages<'a>(
    batch: WriteBatch<'a>,
    indexed: Seq<&mut WriteBatch<'a>>,
    present: Seq<bool>,
    n: int,
)
    requires
        0 <= n <= indexed.len(),
        indexed.len() == batch.pending@.len(),
        indexed.len() <= usize::MAX,
        forall|k: int|
            0 <= k < indexed.len() ==> {
                &&& *#[trigger] indexed[k] == if k == 0 {
                    batch
                } else {
                    *final(indexed[k - 1])
                }
                &&& call_ensures(
                    WriteBatch::note_indexed,
                    (indexed[k], k as usize, present[k]),
                    (),
                )
            },
    ensures
        n > 0 ==> {
            let after = *final(indexed[n - 1]);
            &&& after.responses == batch.responses
            &&& after.delta_bases == batch.delta_bases
            &&& after.pending@.len() == batch.pending@.len()
            &&& forall|k: int|
                0 <= k < batch.pending@.len() ==> {
                    let page = #[trigger] after.pending@[k];
                    &&& page.hash == batch.pending@[k].hash
                    &&& page.data == batch.pending@[k].data
                    &&& page.delta_base == batch.pending@[k].delta_base
                    &&& page.early_completion <==> batch.pending@[k].early_completion || (k < n
                        && present[k])
                }
        },
    decreases n,
{
    if n > 0 {
        lemma_noted_pages(batch, indexed, present, n - 1);
        assert(call_ensures(
            WriteBatch::note_indexed,
            (indexed[n - 1], (n - 1) as usize, present[n - 1]),
            (),
        ));
        let before = *indexed[n - 1];
        let after = *final(indexed[n - 1]);
        assert forall|k: int| 0 <= k < batch.pending@.len() implies {
            let page = #[trigger] after.pending@[k];
            &&& page.hash == batch.pending@[k].hash
            &&& page.data == batch.pending@[k].data
            &&& page.delta_base == batch.pending@[k].delta_base
            &&& page.early_completion <==> batch.pending@[k].early_completion || (k < n
                && present[k])
        } by {
            assert(before.pending@[k].hash == batch.pending@[k].hash);
        }
    }
}

proof fn lemma_fresh_request_is_pending<'a>(
    reqs: Seq<WriteRequest<'a>>,
    hashes: Seq<[u8; 32]>,
    seen: Set<Seq<u8>>,
    n: int,
    i: int,
)
    requires
        0 <= i < n <= reqs.len(),
        hashes.len() == reqs.len(),
        is_fresh(hashes, seen, i),
    ensures
        exists|k: int|
            {
                &&& 0 <= k < pending_writes(reqs, hashes, seen, n).len()
                &&& (#[trigger] pending_writes(reqs, hashes, seen, n)[k]).hash == hashes[i]
                &&& pending_writes(reqs, hashes, seen, n)[k].data == reqs[i].data
            },
    decreases n,
{
    let before = pending_writes(reqs, hashes, seen, n - 1);
    let after = pending_writes(reqs, hashes, seen, n);
    if i < n - 1 {
        lemma_fresh_request_is_pending(reqs, hashes, seen, n - 1, i);
        let k: int = choose|k: int|
            {
                &&& 0 <= k < before.len()
                &&& (#[trigger] before[k]).hash == hashes[i]
                &&& before[k].data == reqs[i].data
            };
        assert(after[k] == before[k]);
    } else {
        assert(after[before.len() as int].hash == hashes[i]);
    }
}

/// A batch that is planned again after its end has nothing left to store: the transaction has
/// dealt with all its hashes, whatever had become of its pages meanwhile.
pub proof fn batch_planned_again_is_empty<'a>(
    applier: &mut WriteApplier,
    reqs: &[WriteRequest<'a>],
    hashes: &Vec<[u8; 32]>,
    planned: WriteBatch<'a>,
    finished: WriteBatch<'a>,
    r: (Vec<Mutation<'a>>, Vec<WriteResponse>),
    again: WriteBatch<'a>,
)
    requires
        hashes@.len() == reqs@.len(),
        call_ensures(WriteApplier::plan_write, (&*applier, reqs, hashes), planned),
        finished.pending@.len() == planned.pending@.len(),
        forall|k: int|
            0 <= k < planned.pending@.len() ==> (#[trigger] finished.pending@[k]).hash@
                == planned.pending@[k].hash@,
        call_ensures(WriteApplier::finish, (applier, finished), r),
        call_ensures(WriteApplier::plan_write, (&*final(applier), reqs, hashes), again),
    ensures
        again.pending@.len() == 0,
{
    let n: int = reqs@.len() as int;
    let seen = old(applier).seen_hashes@;
    let after = final(applier).seen_hashes@;
    let pages = planned.pending@;
    every_request_is_pending_or_seen(reqs@, hashes@, seen, n);
    assert forall|i: int| 0 <= i < n implies after.contains((#[trigger] hashes@[i])@) by {
        if !seen.contains(hashes@[i]@) {
            let k: int = choose|k: int|
                0 <= k < pages.len() && (#[trigger] pages[k]).hash@ == hashes@[i]@;
            assert(finished.pending@[k].hash@ == pages[k].hash@);
            assert(pending_hashes(finished.pending@).contains(hashes@[i]@));
        }
    }
    seen_batch_stores_nothing(reqs@, hashes@, after, n);
}

/// A new applier has dealt with no hash, and has the settings that it was made from.
pub proof fn new_applier_has_dealt_with_nothing(ctx: WriteApplierContext, r: WriteApplier)
    requires
        call_ensures(WriteApplier::new, (ctx,), r),
    ensures
        forall|h: Seq<u8>| !#[trigger] r.seen_hashes@.contains(h),
        r.ns_id@ == ctx.ns_id@,
        r.now == ctx.now,
        r.max_page_size == ctx.max_page_size,
{
}

/// To start a batch is to hash its pages and to plan it by these hashes.
pub proof fn batch_is_planned_by_the_hashes_of_its_contents<'a>(
    applier: &WriteApplier,
    reqs: &[WriteRequest<'a>],
    hashes: &Vec<[u8; 32]>,
    started: Result<WriteBatch<'a>, PageTooLarge>,
    planned: WriteBatch<'a>,
)
    requires
        hashes@.len() == reqs@.len(),
        forall|i: int|
            0 <= i < reqs@.len() ==> (#[trigger] hashes@[i])@ == crate::outside::blake3_hash(
                reqs@[i].data@,
            ),
        call_ensures(WriteApplier::apply_write, (applier, reqs), started),
        call_ensures(WriteApplier::plan_write, (applier, reqs, hashes), planned),
    ensures
        started matches Ok(batch) ==> {
            &&& batch.delta_bases@.len() == 0
            &&& batch.pending@.len() == planned.pending@.len()
            &&& forall|k: int|
                0 <= k < batch.pending@.len() ==> {
                    let (a, b) = (#[trigger] batch.pending@[k], planned.pending@[k]);
                    &&& a.hash@ == b.hash@
                    &&& a.data == b.data
                    &&& a.delta_base == b.delta_base
                    &&& !a.early_completion
                }
        },
{
    if started is Ok {
        let n: int = reqs@.len() as int;
        let batch = started->Ok_0;
        let seen = applier.seen_hashes@;
        let own = choose|own: Seq<[u8; 32]>|
            {
                &&& hashes_requests(own, reqs@)
                &&& responds(batch.responses@, own)
                &&& batch.pending@ == #[trigger] pending_writes(reqs@, own, seen, n)
            };
        lemma_pending_goes_by_hashes(reqs@, own, hashes@, seen, n);
        lemma_pending_in_order(reqs@, own, seen, n);
    }
}

/// The text of the error names the size of the page and the limit, in decimal digits.
pub proof fn error_names_the_size_and_the_limit(
    e: &PageTooLarge,
    r: String,
    len: &mut String,
    limit: &mut String,
)
    requires
        call_ensures(PageTooLarge::message, (e,), r),
        old(len)@.len() == 0,
        old(limit)@.len() == 0,
        call_ensures(append_padded_decimal, (len, e.len as u64, 1), ()),
        call_ensures(append_padded_decimal, (limit, e.limit as u64, 1), ()),
    ensures
        r@ == "page is too large: "@ + final(len)@ + " bytes (limit "@ + final(limit)@ + ")"@,
{
    assert(final(len)@ =~= crate::text::padded_decimal(e.len as nat, 1));
    assert(final(limit)@ =~= crate::text::padded_decimal(e.limit as nat, 1));
}

} // verus!
