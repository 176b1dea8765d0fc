//! Content that goes in comes out: the laws of uploads in pieces and of
//! reads in pieces.
use crate::chunked::assembled;
use crate::chunked::commit_plan;
use crate::chunked::grown;
use crate::chunked::size_after;
use crate::context::ContextView;
use crate::digest::sha256_of;
use crate::metadata::DownloadView;
use crate::model::available;
use crate::model::carried_out;
use crate::model::lemma_perform_push;
use crate::model::lemma_perform_three;
use crate::model::load_reply;
use crate::model::sound_file;
use crate::model::Volume;
use crate::path::staging_of;
use crate::plan::ActionView;
use crate::storage::content_actions;
use crate::storage::download_of;
use crate::storage::piece;
use crate::storage::read_refusal;
use crate::storage::record_at;
use crate::storage::written_record;
use crate::storage::MAX_READ_SIZE;
use crate::upload::expired;
use crate::upload::SessionView;
use vstd::prelude::*;

verus! {

/// How many bytes the pieces hold together.
pub open spec fn lengths_sum(pieces: Seq<Seq<u8>>) -> nat
    decreases pieces.len(),
{
    if pieces.len() == 0 {
        0
    } else {
        lengths_sum(pieces.drop_last()) + pieces.last().len()
    }
}

/// The offset at which the `i`-th piece starts where the pieces lie one
/// behind the other: the bytes that the pieces before it hold together.
pub open spec fn offset(pieces: Seq<Seq<u8>>, i: int) -> nat {
    lengths_sum(pieces.take(i))
}

/// The pieces from the `k`-th on, one behind the other.
pub open spec fn joined_from(pieces: Seq<Seq<u8>>, k: int) -> Seq<u8>
    decreases pieces.len() - k,
{
    if k < 0 || k >= pieces.len() {
        Seq::empty()
    } else {
        pieces[k] + joined_from(pieces, k + 1)
    }
}

/// All the pieces, one behind the other: the content that they are a partition of.
pub open spec fn joined(pieces: Seq<Seq<u8>>) -> Seq<u8> {
    joined_from(pieces, 0)
}

/// No piece is empty.
pub open spec fn no_piece_is_empty(pieces: Seq<Seq<u8>>) -> bool {
    forall|i: int| 0 <= i < pieces.len() ==> (#[trigger] pieces[i]).len() > 0
}

/// An upload holds the pieces: each one under the offset at which it starts.
pub open spec fn holds_pieces(chunks: Map<u64, Seq<u8>>, pieces: Seq<Seq<u8>>) -> bool {
    forall|i: int|
        0 <= i < pieces.len() ==> chunks.contains_key(#[trigger] offset(pieces, i) as u64) && chunks[offset(
            pieces,
            i,
        ) as u64] == pieces[i]
}

/// Each piece starts where the one before it ends, and the last one ends
/// where the bytes of all of them are counted.
pub proof fn lemma_offsets(pieces: Seq<Seq<u8>>, i: int)
    requires
        0 <= i <= pieces.len(),
    ensures
        offset(pieces, 0) == 0,
        offset(pieces, pieces.len() as int) == lengths_sum(pieces),
        offset(pieces, i) <= lengths_sum(pieces),
        i < pieces.len() ==> offset(pieces, i + 1) == offset(pieces, i) + pieces[i].len(),
    decreases pieces.len() - i,
{
    assert(pieces.take(0) =~= Seq::<Seq<u8>>::empty());
    assert(pieces.take(pieces.len() as int) =~= pieces);
    if i < pieces.len() {
        assert(pieces.take(i + 1).drop_last() =~= pieces.take(i));
        assert(pieces.take(i + 1).last() == pieces[i]);
        lemma_offsets(pieces, i + 1);
    }
}

/// Where no piece is empty, a later piece starts at a later offset.
pub proof fn lemma_offsets_increase(pieces: Seq<Seq<u8>>, i: int, j: int)
    requires
        no_piece_is_empty(pieces),
        0 <= i < j <= pieces.len(),
    ensures
        offset(pieces, i) < offset(pieces, j),
    decreases j - i,
{
    lemma_offsets(pieces, i);
    if i + 1 < j {
        lemma_offsets_increase(pieces, i + 1, j);
    }
}

/// The joined pieces hold as many bytes as the pieces hold together.
pub proof fn lemma_joined_len(pieces: Seq<Seq<u8>>, k: int)
    requires
        0 <= k <= pieces.len(),
    ensures
        joined_from(pieces, k).len() == lengths_sum(pieces) - offset(pieces, k),
    decreases pieces.len() - k,
{
    lemma_offsets(pieces, k);
    if k < pieces.len() {
        lemma_joined_len(pieces, k + 1);
    }
}

/// An upload that holds the pieces of a partition, none of them empty,
/// gives them back joined, from whichever piece on.
pub proof fn lemma_assembled_pieces(chunks: Map<u64, Seq<u8>>, pieces: Seq<Seq<u8>>, k: int)
    requires
        no_piece_is_empty(pieces),
        holds_pieces(chunks, pieces),
        lengths_sum(pieces) <= u64::MAX,
        0 <= k <= pieces.len(),
    ensures
        assembled(chunks, offset(pieces, k) as u64, lengths_sum(pieces) as u64) == joined_from(pieces, k),
    decreases pieces.len() - k,
{
    lemma_offsets(pieces, k);
    if k < pieces.len() {
        lemma_offsets(pieces, k + 1);
        lemma_assembled_pieces(chunks, pieces, k + 1);
        assert(chunks.contains_key(offset(pieces, k) as u64));
        assert(chunks[offset(pieces, k) as u64] == pieces[k]);
    }
}

/// A piece as it was sent: when, at which offset, and the bytes.
pub struct Sent {
    pub now: u64,
    pub start: u64,
    pub data: Seq<u8>,
}

/// An upload after the pieces of `sends` have come in, in their order.
pub open spec fn received(session: SessionView, sends: Seq<Sent>) -> SessionView
    decreases sends.len(),
{
    if sends.len() == 0 {
        session
    } else {
        let last = sends.last();
        grown(received(session, sends.drop_last()), last.now, last.start, last.data)
    }
}

/// `order` names each of the numbers below `n` once, and `inverse` tells where.
pub open spec fn is_permutation(order: Seq<int>, inverse: Seq<int>, n: nat) -> bool {
    &&& order.len() == n
    &&& inverse.len() == n
    &&& forall|k: int| 0 <= k < n ==> 0 <= #[trigger] order[k] < n && inverse[order[k]] == k
    &&& forall|i: int| 0 <= i < n ==> 0 <= #[trigger] inverse[i] < n && order[inverse[i]] == i
}

/// The pieces of a partition as they are sent in the order `order`, the
/// `k`-th of them at the time `times[k]`.
pub open spec fn sent_in_order(pieces: Seq<Seq<u8>>, order: Seq<int>, times: Seq<u64>) -> Seq<Sent> {
    Seq::new(
        order.len(),
        |k: int| Sent { now: times[k], start: offset(pieces, order[k]) as u64, data: pieces[order[k]] },
    )
}

/// How many bytes the first `k` pieces in the order `order` hold together.
pub open spec fn sum_in_order(pieces: Seq<Seq<u8>>, order: Seq<int>, k: int) -> nat
    decreases k,
{
    if k <= 0 {
        0
    } else {
        sum_in_order(pieces, order, k - 1) + pieces[order[k - 1]].len()
    }
}

/// The pieces hold the same bytes together in whatever order they are counted.
pub proof fn lemma_sum_in_any_order(pieces: Seq<Seq<u8>>, order: Seq<int>, inverse: Seq<int>)
    requires
        is_permutation(order, inverse, pieces.len()),
    ensures
        sum_in_order(pieces, order, pieces.len() as int) == lengths_sum(pieces),
    decreases pieces.len(),
{
    let n = pieces.len() as int;
    if n > 0 {
        // take the last piece out of the order, and count the others first
        let p = inverse[n - 1];
        let fewer = pieces.drop_last();
        let order2 = Seq::new(
            (n - 1) as nat,
            |k: int|
                if k < p {
                    order[k]
                } else {
                    order[k + 1]
                },
        );
        let inverse2 = Seq::new(
            (n - 1) as nat,
            |i: int|
                if inverse[i] < p {
                    inverse[i]
                } else {
                    inverse[i] - 1
                },
        );
        assert(order[p] == n - 1);
        assert forall|k: int| 0 <= k < n - 1 implies 0 <= #[trigger] order2[k] < n - 1
            && inverse2[order2[k]] == k by {
            let k0 = if k < p {
                k
            } else {
                k + 1
            };
            assert(order2[k] == order[k0]);
            assert(inverse[order[k0]] == k0);
            if order[k0] == n - 1 {
                assert(inverse[n - 1] == k0);
            }
        }
        assert forall|i: int| 0 <= i < n - 1 implies 0 <= #[trigger] inverse2[i] < n - 1
            && order2[inverse2[i]] == i by {
            assert(order[inverse[i]] == i);
            if inverse[i] == p {
                assert(order[p] == i);
            }
        }
        lemma_sum_in_any_order(fewer, order2, inverse2);
        lemma_sum_skips(pieces, order, order2, p, n - 1);
        lemma_sum_of_fewer(pieces, order2, n - 1);
    }
}

/// Counting in an order that leaves out the `p`-th piece of another order
/// counts what the other order counts, less that piece.
proof fn lemma_sum_skips(pieces: Seq<Seq<u8>>, order: Seq<int>, order2: Seq<int>, p: int, k: int)
    requires
        0 <= p < order.len(),
        order2.len() == order.len() - 1,
        0 <= k <= order2.len(),
        forall|j: int|
            0 <= j < order2.len() ==> #[trigger] order2[j] == if j < p {
                order[j]
            } else {
                order[j + 1]
            },
    ensures
        k <= p ==> sum_in_order(pieces, order2, k) == sum_in_order(pieces, order, k),
        k >= p ==> sum_in_order(pieces, order2, k) + pieces[order[p]].len() == sum_in_order(
            pieces,
            order,
            k + 1,
        ),
    decreases k,
{
    if k > 0 {
        lemma_sum_skips(pieces, order, order2, p, k - 1);
        assert(order2[k - 1] == if k - 1 < p {
            order[k - 1]
        } else {
            order[k]
        });
    }
    if k == p {
        assert(sum_in_order(pieces, order, p + 1) == sum_in_order(pieces, order, p) + pieces[order[p]].len());
    }
}

/// Counting pieces that all lie before the last one does not look at the last one.
proof fn lemma_sum_of_fewer(pieces: Seq<Seq<u8>>, order: Seq<int>, k: int)
    requires
        pieces.len() > 0,
        0 <= k <= order.len(),
        forall|j: int| 0 <= j < order.len() ==> 0 <= #[trigger] order[j] < pieces.len() - 1,
    ensures
        sum_in_order(pieces.drop_last(), order, k) == sum_in_order(pieces, order, k),
    decreases k,
{
    if k > 0 {
        lemma_sum_of_fewer(pieces, order, k - 1);
        assert(0 <= order[k - 1] < pieces.len() - 1);
        assert(pieces.drop_last()[order[k - 1]] == pieces[order[k - 1]]);
    }
}

/// What an upload that began empty holds after the first `k` pieces have
/// come in, in the order `order`: those pieces, each under its offset, and
/// as many bytes as they hold together.
proof fn lemma_received_in_order(
    session: SessionView,
    pieces: Seq<Seq<u8>>,
    order: Seq<int>,
    inverse: Seq<int>,
    times: Seq<u64>,
    k: int,
)
    requires
        session.size == 0,
        session.chunks == Map::<u64, Seq<u8>>::empty(),
        no_piece_is_empty(pieces),
        lengths_sum(pieces) <= u64::MAX,
        is_permutation(order, inverse, pieces.len()),
        times.len() == pieces.len(),
        0 <= k <= pieces.len(),
    ensures
        ({
            let sends = sent_in_order(pieces, order, times);
            let so_far = received(session, sends.take(k));
            &&& so_far.size == sum_in_order(pieces, order, k)
            &&& sum_in_order(pieces, order, k) <= lengths_sum(pieces)
            &&& so_far.owner == session.owner
            &&& so_far.mimetype == session.mimetype
            &&& k > 0 ==> so_far.updated_at == times[k - 1]
            &&& forall|start: u64| #[trigger]
                so_far.chunks.contains_key(start) <==> exists|j: int|
                    0 <= j < k && start == #[trigger] offset(pieces, order[j]) as u64
            &&& forall|j: int|
                0 <= j < k ==> so_far.chunks[#[trigger] offset(pieces, order[j]) as u64] == pieces[order[j]]
            &&& k < pieces.len() ==> size_after(so_far, sends[k].start, sends[k].data.len())
                == sum_in_order(pieces, order, k + 1)
        }),
    decreases k,
{
    let sends = sent_in_order(pieces, order, times);
    let n = pieces.len() as int;
    lemma_sum_bound(pieces, order, inverse, k);
    if k == 0 {
        assert(sends.take(0) =~= Seq::<Sent>::empty());
    } else {
        lemma_received_in_order(session, pieces, order, inverse, times, k - 1);
        let before = received(session, sends.take(k - 1));
        assert(sends.take(k).drop_last() =~= sends.take(k - 1));
        assert(sends.take(k).last() == sends[k - 1]);
        let so_far = received(session, sends.take(k));
        assert(so_far == grown(before, sends[k - 1].now, sends[k - 1].start, sends[k - 1].data));
        assert forall|start: u64| #[trigger]
            so_far.chunks.contains_key(start) <==> exists|j: int|
                0 <= j < k && start == #[trigger] offset(pieces, order[j]) as u64 by {
            if so_far.chunks.contains_key(start) {
                if start == sends[k - 1].start {
                    assert(start == offset(pieces, order[k - 1]) as u64);
                } else {
                    assert(before.chunks.contains_key(start));
                    let j = choose|j: int| 0 <= j < k - 1 && start == #[trigger] offset(pieces, order[j]) as u64;
                    assert(0 <= j < k && start == offset(pieces, order[j]) as u64);
                }
            }
            if exists|j: int| 0 <= j < k && start == #[trigger] offset(pieces, order[j]) as u64 {
                let j = choose|j: int| 0 <= j < k && start == #[trigger] offset(pieces, order[j]) as u64;
                if j < k - 1 {
                    assert(before.chunks.contains_key(start));
                }
            }
        }
        assert forall|j: int| 0 <= j < k implies so_far.chunks[#[trigger] offset(pieces, order[j]) as u64]
            == pieces[order[j]] by {
            if j < k - 1 {
                lemma_offsets_differ(pieces, order, inverse, j, k - 1);
            }
        }
    }
    if k < n {
        // the next piece starts where none has come in yet
        let so_far = received(session, sends.take(k));
        let next = offset(pieces, order[k]) as u64;
        if so_far.chunks.contains_key(next) {
            let j = choose|j: int| 0 <= j < k && next == #[trigger] offset(pieces, order[j]) as u64;
            lemma_offsets_differ(pieces, order, inverse, j, k);
        }
        assert(!so_far.chunks.contains_key(next));
    }
}

/// The pieces counted so far are no more than all of them.
proof fn lemma_sum_bound(pieces: Seq<Seq<u8>>, order: Seq<int>, inverse: Seq<int>, k: int)
    requires
        is_permutation(order, inverse, pieces.len()),
        0 <= k <= pieces.len(),
    ensures
        sum_in_order(pieces, order, k) <= lengths_sum(pieces),
    decreases pieces.len() - k,
{
    if k == pieces.len() {
        lemma_sum_in_any_order(pieces, order, inverse);
    } else {
        lemma_sum_bound(pieces, order, inverse, k + 1);
    }
}

/// Two pieces that are sent at different turns start at different offsets.
proof fn lemma_offsets_differ(pieces: Seq<Seq<u8>>, order: Seq<int>, inverse: Seq<int>, j: int, k: int)
    requires
        no_piece_is_empty(pieces),
        lengths_sum(pieces) <= u64::MAX,
        is_permutation(order, inverse, pieces.len()),
        0 <= j < k < pieces.len(),
    ensures
        offset(pieces, order[j]) as u64 != offset(pieces, order[k]) as u64,
{
    let a = order[j];
    let b = order[k];
    assert(inverse[a] == j && inverse[b] == k);
    lemma_offsets(pieces, a);
    lemma_offsets(pieces, b);
    if a < b {
        lemma_offsets_increase(pieces, a, b);
    } else {
        lemma_offsets_increase(pieces, b, a);
    }
}

/// Pieces may be sent in any order. An upload that began empty and took in
/// the pieces of a partition, none of them empty, in whatever order, holds
/// every piece under the offset at which it starts, and as many bytes as
/// the pieces hold together. No piece on the way was refused for its size.
pub proof fn law_pieces_arrive_in_any_order(
    session: SessionView,
    pieces: Seq<Seq<u8>>,
    order: Seq<int>,
    inverse: Seq<int>,
    times: Seq<u64>,
)
    requires
        session.size == 0,
        session.chunks == Map::<u64, Seq<u8>>::empty(),
        no_piece_is_empty(pieces),
        lengths_sum(pieces) <= u64::MAX,
        is_permutation(order, inverse, pieces.len()),
        times.len() == pieces.len(),
    ensures
        ({
            let sends = sent_in_order(pieces, order, times);
            let full = received(session, sends);
            &&& full.size == lengths_sum(pieces)
            &&& holds_pieces(full.chunks, pieces)
            &&& full.owner == session.owner
            &&& full.mimetype == session.mimetype
            &&& forall|k: int|
                0 <= k < sends.len() ==> 0 <= #[trigger] size_after(
                    received(session, sends.take(k)),
                    sends[k].start,
                    sends[k].data.len(),
                ) <= u64::MAX
        }),
{
    let sends = sent_in_order(pieces, order, times);
    let n = pieces.len() as int;
    lemma_received_in_order(session, pieces, order, inverse, times, n);
    lemma_sum_in_any_order(pieces, order, inverse);
    assert(sends.take(n) =~= sends);
    let full = received(session, sends);
    assert forall|i: int| 0 <= i < pieces.len() implies full.chunks.contains_key(
        #[trigger] offset(pieces, i) as u64,
    ) && full.chunks[offset(pieces, i) as u64] == pieces[i] by {
        let j = inverse[i];
        assert(order[j] == i);
        assert(offset(pieces, order[j]) as u64 == offset(pieces, i) as u64);
    }
    assert forall|k: int| 0 <= k < sends.len() implies 0 <= #[trigger] size_after(
        received(session, sends.take(k)),
        sends[k].start,
        sends[k].data.len(),
    ) <= u64::MAX by {
        lemma_received_in_order(session, pieces, order, inverse, times, k);
        lemma_sum_bound(pieces, order, inverse, k + 1);
    }
}

/// An upload in pieces comes out whole. Where the upload for `path` holds
/// the pieces of a partition, none of them empty, and as many bytes as they
/// hold together, its owner commits it with that size and with the digest
/// of the joined pieces, or with none. The file then holds the joined
/// pieces, its record tells their length and their digest, and the upload
/// is gone.
pub proof fn law_upload_round_trip(
    v: Volume,
    ctx: ContextView,
    path: Seq<u8>,
    pieces: Seq<Seq<u8>>,
    given: Option<Seq<u8>>,
)
    requires
        v.sessions.contains_key(path),
        v.sessions[path].owner == ctx.caller,
        !expired(v.sessions[path].updated_at, ctx.now),
        no_piece_is_empty(pieces),
        lengths_sum(pieces) <= u64::MAX,
        v.sessions[path].size == lengths_sum(pieces),
        holds_pieces(v.sessions[path].chunks, pieces),
        given is None || given == Some(sha256_of(joined(pieces))),
    ensures
        ({
            let size = lengths_sum(pieces) as u64;
            let content = joined(pieces);
            let plan = commit_plan(
                v.records,
                v.sessions,
                ctx,
                path,
                size,
                given,
                sha256_of(assembled(v.sessions[path].chunks, 0, size)),
            );
            let after = carried_out(v, plan);
            &&& plan.reply is None
            &&& sound_file(after, path)
            &&& after.files[path] == content
            &&& after.records[path].size == content.len()
            &&& after.records[path].sha256 == Some(sha256_of(content))
            &&& after.records[path].mimetype == v.sessions[path].mimetype
            &&& !after.sessions.contains_key(path)
        }),
{
    let size = lengths_sum(pieces) as u64;
    let session = v.sessions[path];
    let content = joined(pieces);
    lemma_offsets(pieces, 0);
    lemma_assembled_pieces(session.chunks, pieces, 0);
    lemma_joined_len(pieces, 0);
    assert(assembled(session.chunks, 0, size) == content);
    let digest = sha256_of(content);
    let record = written_record(record_at(v.records, path), ctx, session.mimetype, size, digest);
    let staging = staging_of(path);
    let written = content_actions(path, content, record);
    lemma_perform_three(
        v,
        ActionView::Write { path: staging, data: content },
        ActionView::Rename { from: staging, to: path },
        ActionView::PutInfo { path, info: record },
    );
    lemma_perform_push(v, written, ActionView::EndUpload { path });
}

/// The pieces that a reader is given who asks for the file `path` from
/// `start_at` on, and then again from where each piece ended, until a piece
/// ends where the file ends. Nothing where a read is refused.
pub open spec fn downloads_from(v: Volume, reader: ContextView, path: Seq<u8>, start_at: u64) -> Seq<
    DownloadView,
>
    decreases v.files[path].len() - start_at,
{
    match load_reply(v, reader, path, start_at) {
        Ok(download) => if start_at < download.downloaded_at <= v.files[path].len()
            && download.downloaded_at != download.size {
            seq![download] + downloads_from(v, reader, path, download.downloaded_at)
        } else {
            seq![download]
        },
        Err(_) => Seq::empty(),
    }
}

/// The bytes of the pieces of `downloads`, one behind the other.
pub open spec fn downloaded(downloads: Seq<DownloadView>) -> Seq<u8>
    decreases downloads.len(),
{
    if downloads.len() == 0 {
        Seq::empty()
    } else {
        downloads[0].chunk + downloaded(downloads.drop_first())
    }
}

/// Reads in pieces cover the content. Who may read a sound file and asks
/// for it from an offset on, and then from where each piece ended, is given
/// at least one piece and at last a piece that ends where the file ends.
/// That piece, and no piece before it, comes with the digest that the
/// record tells. The pieces joined are the content from the offset on.
pub proof fn law_pieces_cover_the_content(v: Volume, reader: ContextView, path: Seq<u8>, start_at: u64)
    requires
        sound_file(v, path),
        read_refusal(v.records, reader, path) is None,
        start_at <= v.files[path].len(),
    ensures
        ({
            let downloads = downloads_from(v, reader, path, start_at);
            &&& downloads.len() >= 1
            &&& downloaded(downloads) == v.files[path].skip(start_at as int)
            &&& downloads.last().downloaded_at == v.records[path].size
            &&& downloads.last().sha256 == v.records[path].sha256
            &&& forall|i: int|
                0 <= i < downloads.len() - 1 ==> (#[trigger] downloads[i]).sha256 is None
                    && downloads[i].downloaded_at < v.records[path].size
            &&& forall|i: int|
                0 <= i < downloads.len() ==> (#[trigger] downloads[i]).chunk.len() <= MAX_READ_SIZE
                    && downloads[i].size == v.files[path].len()
            &&& start_at == 0 ==> (downloads.last().sha256 matches Some(digest) ==> digest == sha256_of(
                downloaded(downloads),
            ))
        }),
    decreases v.files[path].len() - start_at,
{
    assert(v.files[path].skip(0) =~= v.files[path]);
    let content = v.files[path];
    let rest = content.skip(start_at as int);
    let chunk = piece(available(v, path, start_at));
    assert(available(v, path, start_at) == rest);
    let download = download_of(v.records[path], start_at, chunk);
    assert(load_reply(v, reader, path, start_at) == Ok::<DownloadView, u32>(download));
    let downloads = downloads_from(v, reader, path, start_at);
    if start_at < download.downloaded_at <= content.len() && download.downloaded_at != download.size {
        let next = download.downloaded_at;
        law_pieces_cover_the_content(v, reader, path, next);
        let later = downloads_from(v, reader, path, next);
        assert(downloads == seq![download] + later);
        assert(downloads.drop_first() =~= later);
        assert(downloads[0] == download);
        assert(downloads.last() == later.last());
        assert(chunk + content.skip(next as int) =~= rest);
        assert forall|i: int| 0 <= i < downloads.len() - 1 implies (#[trigger] downloads[i]).sha256 is None
            && downloads[i].downloaded_at < v.records[path].size by {
            if i > 0 {
                assert(downloads[i] == later[i - 1]);
            }
        }
        assert forall|i: int| 0 <= i < downloads.len() implies (#[trigger] downloads[i]).chunk.len()
            <= MAX_READ_SIZE && downloads[i].size == v.files[path].len() by {
            if i > 0 {
                assert(downloads[i] == later[i - 1]);
            }
        }
    } else {
        assert(downloads == seq![download]);
        assert(downloads.drop_first() =~= Seq::<DownloadView>::empty());
        assert(downloaded(downloads.drop_first()) =~= Seq::<u8>::empty());
        // the piece ends where the file ends: else the read would have gone on
        if rest.len() > 0 {
            assert(chunk.len() > 0);
        }
        assert(chunk =~= rest);
        assert(downloaded(downloads) =~= rest);
    }
}

/// What was uploaded is what is downloaded. After the upload of the law
/// above was committed, who may read the file and reads it in pieces from
/// the offset 0 on is given the joined pieces of the upload, and with the
/// last piece their digest.
pub proof fn law_uploaded_content_is_downloaded(
    v: Volume,
    ctx: ContextView,
    reader: ContextView,
    path: Seq<u8>,
    pieces: Seq<Seq<u8>>,
    given: Option<Seq<u8>>,
)
    requires
        v.sessions.contains_key(path),
        v.sessions[path].owner == ctx.caller,
        !expired(v.sessions[path].updated_at, ctx.now),
        no_piece_is_empty(pieces),
        lengths_sum(pieces) <= u64::MAX,
        v.sessions[path].size == lengths_sum(pieces),
        holds_pieces(v.sessions[path].chunks, pieces),
        given is None || given == Some(sha256_of(joined(pieces))),
    ensures
        ({
            let size = lengths_sum(pieces) as u64;
            let plan = commit_plan(
                v.records,
                v.sessions,
                ctx,
                path,
                size,
                given,
                sha256_of(assembled(v.sessions[path].chunks, 0, size)),
            );
            let after = carried_out(v, plan);
            read_refusal(after.records, reader, path) is None ==> {
                let downloads = downloads_from(after, reader, path, 0);
                &&& downloads.len() >= 1
                &&& downloaded(downloads) == joined(pieces)
                &&& downloads.last().sha256 == Some(sha256_of(joined(pieces)))
            }
        }),
{
    law_upload_round_trip(v, ctx, path, pieces, given);
    let size = lengths_sum(pieces) as u64;
    let plan = commit_plan(
        v.records,
        v.sessions,
        ctx,
        path,
        size,
        given,
        sha256_of(assembled(v.sessions[path].chunks, 0, size)),
    );
    let after = carried_out(v, plan);
    if read_refusal(after.records, reader, path) is None {
        law_pieces_cover_the_content(after, reader, path, 0);
        assert(after.files[path].skip(0) =~= after.files[path]);
    }
}

} // verus!
