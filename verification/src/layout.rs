//! What stands where in an archive, and what a reader accepts.

use vstd::prelude::*;

use crate::classify::Lane;
use crate::codec::{zstd_packed, zstd_unpacked};
use crate::contents::{block_contents, contents};
use crate::digest::blake3_of;
use crate::error::Fault;
use crate::index::{
    begins_with_letters, footer_bytes, footer_in, header_bytes, header_version, index_appended, index_in,
    law_footer_is_found, law_footer_round_trip, law_header_is_checked, law_header_layout,
    law_index_is_checked, law_stored_index, BlockInfo, EntryView, Footer, FooterView, IndexView,
    Kind, FOOTER_LEN, HEADER_LEN,
};
use crate::laws::{law_finished_archive_opens, lemma_blocks_end, lemma_created};
use crate::pack::{are_stored, end_of, sealed_up};
use crate::plan::{count_kind, is_finished, ScanView};
use crate::raw::{index_bytes, index_value};
use crate::reader::{
    all_files, checked_contents, extracted_contents, file_bytes, first_bad_block, first_fault, opened,
    verifies_to,
};
use crate::select::{chosen, is_block_order, law_block_order, lemma_chosen};
use crate::stream::window;
use crate::writer::{is_created, WriteOptions, WriteStats};

verus! {

/// What stands where in a created archive: the header; the blocks, from byte 16 on, one
/// right behind the other; the index, one frame that zstd made at level 19 of its bytes;
/// and the footer, the last 64 bytes, which says where the index lies, how long it is and
/// was, and its digest. The archive says who created it.
pub proof fn law_created_layout(
    data: Seq<u8>,
    stats: WriteStats,
    scan: ScanView,
    hashes: Seq<Seq<u8>>,
    files: Seq<Seq<u8>>,
    opts: WriteOptions,
)
    requires
        is_created(data, stats, scan, hashes, files, opts),
    ensures
        data.len() >= 80,
        data.take(16) == seq![69u8, 77, 66, 82, 1, 0, 0, 0, 0, 0, 0, 0, 0, 0, 0, 0],
        opened(data) matches Ok((f, ix)) && {
            let n = ix.blocks.len() as int;
            &&& n > 0 ==> ix.blocks[0].offset == 16
            &&& forall|b: int|
                0 < b < n ==> (#[trigger] ix.blocks[b]).offset == ix.blocks[b - 1].offset
                    + ix.blocks[b - 1].clen
            &&& n == 0 ==> f.offset == 16
            &&& n > 0 ==> f.offset == ix.blocks[n - 1].offset + ix.blocks[n - 1].clen
            &&& f.offset + f.clen + 64 == data.len()
            &&& zstd_packed(
                data.subrange(f.offset as int, (f.offset + f.clen) as int),
                index_bytes(ix),
                19,
            )
            &&& f.rlen == index_bytes(ix).len()
            &&& f.hash == blake3_of(index_bytes(ix))
            &&& data.skip(data.len() - 64) == footer_bytes(f)
            &&& ix.created_by == "embr 0.1.0"@
        },
{
    let (ix, p, order) = lemma_created(data, stats, scan, hashes, files, opts);
    let sealed = sealed_up(p.packing).sealed;
    lemma_blocks_end(data, ix.blocks, sealed, opts, ix.blocks.len());
    lemma_blocks_in_a_row(data, ix.blocks, sealed, opts);
    lemma_finished_layout(data, end_of(ix.blocks, ix.blocks.len() as int), ix);
    crate::plan::law_provenance();
}

/// The header, and the blocks right behind it.
proof fn lemma_blocks_in_a_row(
    data: Seq<u8>,
    blocks: Seq<BlockInfo>,
    sealed: Seq<(Lane, Seq<u8>)>,
    opts: WriteOptions,
)
    requires
        are_stored(data, blocks, sealed, opts),
    ensures
        data.take(16) == seq![69u8, 77, 66, 82, 1, 0, 0, 0, 0, 0, 0, 0, 0, 0, 0, 0],
        data.take(HEADER_LEN as int) == header_bytes(),
        blocks.len() > 0 ==> blocks[0].offset == 16,
        forall|b: int|
            0 < b < blocks.len() ==> (#[trigger] blocks[b]).offset == blocks[b - 1].offset
                + blocks[b - 1].clen,
        end_of(blocks, blocks.len() as int) == if blocks.len() == 0 {
            16
        } else {
            blocks[blocks.len() - 1].offset + blocks[blocks.len() - 1].clen
        },
{
    law_header_layout();
    assert forall|b: int| 0 < b < blocks.len() implies (#[trigger] blocks[b]).offset == blocks[b
        - 1].offset + blocks[b - 1].clen by {
        assert(blocks[b].offset == end_of(blocks, b));
    }
    if blocks.len() > 0 {
        assert(blocks[0].offset == end_of(blocks, 0));
    }
}

/// What stands behind the blocks.
proof fn lemma_finished_layout(data: Seq<u8>, end: int, ix: IndexView)
    requires
        HEADER_LEN <= end <= data.len(),
        data.take(HEADER_LEN as int) == header_bytes(),
        is_finished(data, end, ix),
    ensures
        data.len() >= 80,
        opened(data) matches Ok((f, _)) && {
            &&& f.offset == end
            &&& f.offset + f.clen + 64 == data.len()
            &&& zstd_packed(
                data.subrange(f.offset as int, (f.offset + f.clen) as int),
                index_bytes(ix),
                19,
            )
            &&& f.rlen == index_bytes(ix).len()
            &&& f.hash == blake3_of(index_bytes(ix))
            &&& data.skip(data.len() - 64) == footer_bytes(f)
        },
{
    let (mid, f) = choose|mid: Seq<u8>, f: Footer|
        {
            &&& #[trigger] index_appended(data.take(end), mid, f@, ix)
            &&& data == mid + footer_bytes(f@)
        };
    law_finished_archive_opens(data, end, ix);
    law_stored_index(data.take(end), mid, f@, ix);
    law_footer_round_trip(f@);
    assert(data.skip(data.len() - 64) =~= footer_bytes(f@));
    assert(window(data, data.len() - FOOTER_LEN, FOOTER_LEN as int) =~= footer_bytes(f@));
    assert(opened(data)->Ok_0.0 == f@);
    assert(mid.skip(end) =~= data.subrange(end, end + f@.clen));
}

/// An archive opens exactly if its header is accepted, it has a footer, and the index that
/// the footer describes is accepted; the first of these that is not is why it is refused. So
/// every archive that opens begins and ends with the letters `EMBR`, has a version that is
/// not above 1, and has an index whose digest the footer holds.
pub proof fn law_opened(data: Seq<u8>)
    ensures
        data.len() < 80 ==> opened(data) is Err,
        header_version(data) matches Err(f) ==> opened(data) == Err::<
            (FooterView, IndexView),
            Fault,
        >(f),
        header_version(data) is Ok && footer_in(data) is Err ==> opened(data) == Err::<
            (FooterView, IndexView),
            Fault,
        >(footer_in(data)->Err_0),
        header_version(data) is Ok && footer_in(data) is Ok ==> opened(data) == (match index_in(
            data,
            footer_in(data)->Ok_0,
        ) {
            Ok(ix) => Ok::<(FooterView, IndexView), Fault>((footer_in(data)->Ok_0, ix)),
            Err(f) => Err::<(FooterView, IndexView), Fault>(f),
        }),
        opened(data) matches Ok((f, ix)) ==> {
            &&& begins_with_letters(data)
            &&& begins_with_letters(data.skip(data.len() - 4))
            &&& data[4] + 256 * data[5] <= 1
            &&& f.clen > 0 ==> f.offset + f.clen <= data.len() && ({
                let packed = data.subrange(f.offset as int, (f.offset + f.clen) as int);
                zstd_unpacked(packed) matches Some(raw) && blake3_of(raw) == f.hash && raw.len()
                    == f.rlen && index_value(raw) == Some(ix)
            })
        },
{
    let head = window(data, 0, HEADER_LEN as int);
    law_header_is_checked(data);
    law_header_is_checked(head);
    law_footer_is_found(data);
    if data.len() >= 16 {
        assert(head =~= data.take(16));
        assert(head[0] == data[0] && head[1] == data[1] && head[2] == data[2] && head[3] == data[3]
            && head[4] == data[4] && head[5] == data[5]);
    } else {
        assert(head =~= data);
    }
    if opened(data) is Ok {
        let f = opened(data)->Ok_0.0;
        law_index_is_checked(
            data,
            f,
            zstd_unpacked(data.subrange(f.offset as int, (f.offset + f.clen) as int))->0,
        );
    }
}

/// A file's bytes pass their check exactly if they can be had and have the digest that the
/// entry records, if it records one. Any other digest is a fault.
pub proof fn law_checked_contents(data: Seq<u8>, blocks: Seq<BlockInfo>, e: EntryView, hash: Seq<u8>)
    ensures
        contents(data, blocks, e.segments) matches Err(f) ==> checked_contents(data, blocks, e)
            == Err::<Seq<u8>, Fault>(f),
        contents(data, blocks, e.segments) matches Ok(got) ==> {
            &&& e.hash is None || e.hash == Some(blake3_of(got)) ==> checked_contents(
                data,
                blocks,
                e,
            ) == Ok::<Seq<u8>, Fault>(got)
            &&& e.hash == Some(hash) && hash != blake3_of(got) ==> checked_contents(data, blocks, e)
                == Err::<Seq<u8>, Fault>(Fault::Checksum)
        },
        extracted_contents(data, blocks, e, true) == checked_contents(data, blocks, e),
        extracted_contents(data, blocks, e, false) == contents(data, blocks, e.segments),
{
}

/// Sizes add up: a file counts with its size, any other entry not at all, and two lists of
/// entries as the one and the other.
pub proof fn law_file_bytes_add_up(a: Seq<EntryView>, b: Seq<EntryView>, e: EntryView)
    ensures
        file_bytes(Seq::empty()) == 0,
        e.kind == Kind::File ==> file_bytes(seq![e]) == e.size,
        e.kind != Kind::File ==> file_bytes(seq![e]) == 0,
        file_bytes(a + b) == file_bytes(a) + file_bytes(b),
    decreases b.len(),
{
    reveal_with_fuel(file_bytes, 2);
    assert(seq![e].drop_last() =~= Seq::<EntryView>::empty());
    if b.len() == 0 {
        assert(a + b =~= a);
    } else {
        law_file_bytes_add_up(a, b.drop_last(), e);
        assert((a + b).drop_last() =~= a + b.drop_last());
    }
}

/// The faults that checking comes to, file by file.
proof fn lemma_first_fault(data: Seq<u8>, ix: IndexView, listed: Seq<usize>, n: nat)
    requires
        n <= listed.len(),
    ensures
        first_fault(data, ix, listed, n) is None <==> forall|i: int|
            0 <= i < n ==> file_fault(data, ix, #[trigger] listed[i]) is None,
        first_fault(data, ix, listed, n) matches Some(f) ==> exists|i: int|
            {
                &&& 0 <= i < n
                &&& file_fault(data, ix, #[trigger] listed[i]) == Some(f)
                &&& forall|h: int| 0 <= h < i ==> file_fault(data, ix, #[trigger] listed[h]) is None
            },
    decreases n,
{
    if n > 0 {
        let m = (n - 1) as nat;
        lemma_first_fault(data, ix, listed, m);
        if first_fault(data, ix, listed, m) is None && first_fault(data, ix, listed, n) is Some {
            assert(file_fault(data, ix, listed[m as int]) == first_fault(data, ix, listed, n));
        }
    }
}

/// What is wrong with the bytes of the file entry at a position, if anything.
pub open spec fn file_fault(data: Seq<u8>, ix: IndexView, k: usize) -> Option<Fault> {
    match checked_contents(data, ix.blocks, ix.entries[k as int]) {
        Ok(_) => None,
        Err(f) => Some(f),
    }
}

proof fn lemma_first_bad_block(data: Seq<u8>, blocks: Seq<BlockInfo>, n: nat)
    requires
        n <= blocks.len(),
    ensures
        first_bad_block(data, blocks, n) is None <==> forall|b: int|
            0 <= b < n ==> block_contents(data, #[trigger] blocks[b]) is Ok,
        first_bad_block(data, blocks, n) matches Some(f) ==> exists|b: int|
            {
                &&& 0 <= b < n
                &&& block_contents(data, #[trigger] blocks[b]) == Err::<Seq<u8>, Fault>(f)
                &&& forall|h: int|
                    0 <= h < b ==> block_contents(data, #[trigger] blocks[h]) is Ok
            },
    decreases n,
{
    if n > 0 {
        let m = (n - 1) as nat;
        lemma_first_bad_block(data, blocks, m);
        if first_bad_block(data, blocks, m) is None && first_bad_block(data, blocks, n) is Some {
            assert(block_contents(data, blocks[m as int]) is Err);
        }
    }
}

/// Every file of an index is sound.
pub open spec fn files_are_sound(data: Seq<u8>, ix: IndexView) -> bool {
    forall|k: usize|
        k < ix.entries.len() && ix.entries[k as int].kind == Kind::File ==> #[trigger] file_fault(
            data,
            ix,
            k,
        ) is None
}

/// Checking an archive finds a fault exactly if there is one: a file whose bytes cannot be
/// had or do not have their digest, or a block that does not decode. What it reports is the
/// fault of a file, and where all files are sound that of the first block that does not
/// decode.
pub proof fn law_checking_finds_every_fault(data: Seq<u8>, ix: IndexView, outcome: Option<Fault>)
    requires
        verifies_to(data, ix, outcome),
        ix.entries.len() <= usize::MAX,
    ensures
        outcome is None <==> files_are_sound(data, ix) && forall|b: int|
            0 <= b < ix.blocks.len() ==> block_contents(data, #[trigger] ix.blocks[b]) is Ok,
        outcome is Some && !files_are_sound(data, ix) ==> exists|k: usize|
            {
                &&& k < ix.entries.len()
                &&& ix.entries[k as int].kind == Kind::File
                &&& #[trigger] file_fault(data, ix, k) == outcome
            },
        outcome is Some && files_are_sound(data, ix) ==> exists|b: int|
            {
                &&& 0 <= b < ix.blocks.len()
                &&& block_contents(data, #[trigger] ix.blocks[b]) == Err::<Seq<u8>, Fault>(
                    outcome->0,
                )
                &&& forall|h: int|
                    0 <= h < b ==> block_contents(data, #[trigger] ix.blocks[h]) is Ok
            },
{
    let at = all_files(ix);
    let listed = choose|listed: Seq<usize>| #[trigger]
        is_block_order(ix.entries, at, listed) && outcome == (match first_fault(
            data,
            ix,
            listed,
            listed.len(),
        ) {
            Some(f) => Some(f),
            None => first_bad_block(data, ix.blocks, ix.blocks.len()),
        });
    lemma_chosen(ix.entries, None, Kind::File, ix.entries.len());
    law_block_order(ix.entries, at, listed);
    lemma_first_fault(data, ix, listed, listed.len());
    lemma_first_bad_block(data, ix.blocks, ix.blocks.len());
    assert(files_are_sound(data, ix) <==> first_fault(data, ix, listed, listed.len()) is None) by {
        if first_fault(data, ix, listed, listed.len()) is None {
            assert forall|k: usize|
                k < ix.entries.len() && ix.entries[k as int].kind
                    == Kind::File implies #[trigger] file_fault(data, ix, k) is None by {
                assert(at.contains(k));
                assert(listed.contains(k));
                let i = choose|i: int| 0 <= i < listed.len() && listed[i] == k;
                assert(file_fault(data, ix, listed[i]) is None);
            }
        } else {
            let i = choose|i: int|
                0 <= i < listed.len() && file_fault(data, ix, #[trigger] listed[i]) is Some;
            lemma_listed_is_file(ix, listed, i);
        }
    }
    if first_fault(data, ix, listed, listed.len()) is Some {
        let f = first_fault(data, ix, listed, listed.len())->0;
        let i = choose|i: int|
            {
                &&& 0 <= i < listed.len()
                &&& file_fault(data, ix, #[trigger] listed[i]) == Some(f)
                &&& forall|h: int| 0 <= h < i ==> file_fault(data, ix, #[trigger] listed[h]) is None
            };
        lemma_listed_is_file(ix, listed, i);
    }
}

proof fn lemma_listed_is_file(ix: IndexView, listed: Seq<usize>, i: int)
    requires
        is_block_order(ix.entries, all_files(ix), listed),
        ix.entries.len() <= usize::MAX,
        0 <= i < listed.len(),
    ensures
        listed[i] < ix.entries.len(),
        ix.entries[listed[i] as int].kind == Kind::File,
{
    let at = all_files(ix);
    lemma_chosen(ix.entries, None, Kind::File, ix.entries.len());
    law_block_order(ix.entries, at, listed);
    assert(listed.contains(listed[i]));
    assert(at.contains(listed[i]));
    let j = choose|j: int| 0 <= j < at.len() && at[j] == listed[i];
    assert(at[j] < ix.entries.len());
}

/// As many entries of a kind are chosen without a selection as there are.
proof fn lemma_all_of_kind(entries: Seq<EntryView>, kind: Kind, n: nat)
    requires
        n <= entries.len(),
    ensures
        chosen(entries, None, kind, n).len() == count_kind(entries.take(n as int), kind),
    decreases n,
{
    if n > 0 {
        lemma_all_of_kind(entries, kind, (n - 1) as nat);
        assert(entries.take(n as int).drop_last() =~= entries.take(n - 1));
    }
}

/// The files that checking goes through are as many as the index has.
pub proof fn law_all_files(ix: IndexView)
    ensures
        all_files(ix).len() == count_kind(ix.entries, Kind::File),
{
    lemma_all_of_kind(ix.entries, Kind::File, ix.entries.len());
    assert(ix.entries.take(ix.entries.len() as int) =~= ix.entries);
}

} // verus!
