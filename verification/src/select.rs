//! Which entries an operation is about, and in which order it takes files.

use vstd::prelude::*;

use crate::index::{entry_views, Entry, EntryView, Kind};
use crate::order::{is_order_by, lemma_order_by_keys, lemma_order_distinct, stable_order, Key};
use crate::paths::{matches_path, selects};

verus! {

/// What each of some patterns says.
pub open spec fn pattern_views(patterns: Seq<String>) -> Seq<Seq<char>> {
    patterns.map_values(|p: String| p@)
}

/// What a selection says: the patterns, or nothing if everything is meant.
pub open spec fn filter_view(filter: Option<Vec<String>>) -> Option<Seq<Seq<char>>> {
    match filter {
        Some(patterns) => Some(pattern_views(patterns@)),
        None => None,
    }
}

/// One of some patterns selects a path.
pub open spec fn any_selects(path: Seq<char>, patterns: Seq<Seq<char>>) -> bool {
    exists|i: int| 0 <= i < patterns.len() && selects(path, #[trigger] patterns[i])
}

/// A selection covers a path: it is everything, or one of its patterns selects
/// the path.
pub open spec fn is_wanted(path: Seq<char>, filter: Option<Seq<Seq<char>>>) -> bool {
    match filter {
        None => true,
        Some(patterns) => any_selects(path, patterns),
    }
}

/// The positions below `n` of the entries of a kind that a selection covers.
pub open spec fn chosen(
    entries: Seq<EntryView>,
    filter: Option<Seq<Seq<char>>>,
    kind: Kind,
    n: nat,
) -> Seq<usize>
    decreases n,
{
    if n == 0 {
        Seq::empty()
    } else {
        let before = chosen(entries, filter, kind, (n - 1) as nat);
        if entries[n - 1].kind == kind && is_wanted(entries[n - 1].path, filter) {
            before.push((n - 1) as usize)
        } else {
            before
        }
    }
}

/// Exactly the entries of the kind that the selection covers are chosen.
pub proof fn lemma_chosen(
    entries: Seq<EntryView>,
    filter: Option<Seq<Seq<char>>>,
    kind: Kind,
    n: nat,
)
    requires
        n <= entries.len(),
        n <= usize::MAX,
    ensures
        forall|i: int|
            0 <= i < chosen(entries, filter, kind, n).len() ==> {
                let k = #[trigger] chosen(entries, filter, kind, n)[i];
                k < n && entries[k as int].kind == kind && is_wanted(entries[k as int].path, filter)
            },
        forall|k: usize|
            k < n && entries[k as int].kind == kind && is_wanted(entries[k as int].path, filter)
                ==> #[trigger] chosen(entries, filter, kind, n).contains(k),
        chosen(entries, filter, kind, n).len() <= n,
    decreases n,
{
    if n > 0 {
        let m = (n - 1) as nat;
        lemma_chosen(entries, filter, kind, m);
        let before = chosen(entries, filter, kind, m);
        let now = chosen(entries, filter, kind, n);
        assert forall|k: usize|
            k < n && entries[k as int].kind == kind && is_wanted(
                entries[k as int].path,
                filter,
            ) implies #[trigger] now.contains(k) by {
            if k < m {
                assert(before.contains(k));
                let i = choose|i: int| 0 <= i < before.len() && before[i] == k;
                assert(now[i] == k);
            } else {
                assert(now[before.len() as int] == k);
            }
        }
        assert forall|i: int| 0 <= i < now.len() implies {
            let k = #[trigger] now[i];
            k < n && entries[k as int].kind == kind && is_wanted(entries[k as int].path, filter)
        } by {
            if i < before.len() {
                assert(now[i] == before[i]);
            }
        }
    }
}

/// Where a file's bytes start: block and offset of its first segment. A file
/// without segments comes after all others.
pub open spec fn place(e: EntryView) -> (u32, u64) {
    if e.segments.len() > 0 {
        (e.segments[0].block, e.segments[0].offset)
    } else {
        (u32::MAX, 0)
    }
}

/// One place is not behind another.
pub open spec fn place_le(a: (u32, u64), b: (u32, u64)) -> bool {
    a.0 < b.0 || (a.0 == b.0 && a.1 <= b.1)
}

/// `order` puts the entries at some positions in the order of their places.
pub open spec fn is_place_order(entries: Seq<EntryView>, at: Seq<usize>, order: Seq<usize>) -> bool {
    is_order_by(
        at.len(),
        |a: int, b: int| place_le(place(entries[at[a] as int]), place(entries[at[b] as int])),
        order,
    )
}

/// The positions in an order.
pub open spec fn rearranged(at: Seq<usize>, order: Seq<usize>) -> Seq<usize> {
    Seq::new(order.len(), |i: int| at[order[i] as int])
}

/// `listed` is `at` in the order of the entries' places, so that each block is
/// decoded once.
pub open spec fn is_block_order(entries: Seq<EntryView>, at: Seq<usize>, listed: Seq<usize>) -> bool {
    exists|order: Seq<usize>| #[trigger]
        is_place_order(entries, at, order) && listed == rearranged(at, order)
}

/// Files come in the order of their places, and nothing is lost or added: files
/// that share a block are taken one after the other.
pub proof fn law_block_order(entries: Seq<EntryView>, at: Seq<usize>, listed: Seq<usize>)
    requires
        is_block_order(entries, at, listed),
        at.len() <= usize::MAX,
    ensures
        listed.len() == at.len(),
        forall|i: int, j: int|
            0 <= i < j < listed.len() ==> place_le(
                place(entries[#[trigger] listed[i] as int]),
                place(entries[#[trigger] listed[j] as int]),
            ),
        forall|k: usize| listed.contains(k) <==> at.contains(k),
        at.no_duplicates() ==> listed.no_duplicates(),
{
    let order = choose|order: Seq<usize>| #[trigger]
        is_place_order(entries, at, order) && listed == rearranged(at, order);
    assert forall|k: usize| listed.contains(k) implies at.contains(k) by {
        let i = choose|i: int| 0 <= i < listed.len() && listed[i] == k;
        assert(0 <= order[i] < at.len());
        assert(at[order[i] as int] == k);
    }
    assert forall|k: usize| at.contains(k) implies listed.contains(k) by {
        let p = choose|p: int| 0 <= p < at.len() && at[p] == k;
        assert(order.contains(p as usize));
        let i = choose|i: int| 0 <= i < order.len() && order[i] == p as usize;
        assert(listed[i] == k);
    }
    assert forall|i: int, j: int| 0 <= i < j < listed.len() implies place_le(
        place(entries[#[trigger] listed[i] as int]),
        place(entries[#[trigger] listed[j] as int]),
    ) by {
        assert(0 <= order[i] < at.len() && 0 <= order[j] < at.len());
    }
    lemma_order_distinct(
        at.len(),
        |a: int, b: int| place_le(place(entries[at[a] as int]), place(entries[at[b] as int])),
        order,
    );
    if at.no_duplicates() {
        assert forall|i: int, j: int|
            0 <= i < listed.len() && 0 <= j < listed.len() && i != j implies listed[i]
            != listed[j] by {
            assert(order[i] != order[j]);
            assert(0 <= order[i] < at.len() && 0 <= order[j] < at.len());
            assert(at[order[i] as int] != at[order[j] as int]);
        }
    }
}

/// Files that begin in the same block come one after the other: between two of them
/// there is no file that begins in another. So where no file spans blocks, taking
/// the files in this order goes through each block once.
pub proof fn law_blocks_are_visited_once(
    entries: Seq<EntryView>,
    at: Seq<usize>,
    listed: Seq<usize>,
    i: int,
    j: int,
    k: int,
)
    requires
        is_block_order(entries, at, listed),
        at.len() <= usize::MAX,
        0 <= i < j < k < listed.len(),
        place(entries[listed[i] as int]).0 == place(entries[listed[k] as int]).0,
    ensures
        place(entries[listed[j] as int]).0 == place(entries[listed[i] as int]).0,
{
    law_block_order(entries, at, listed);
    assert(place_le(place(entries[listed[i] as int]), place(entries[listed[j] as int])));
    assert(place_le(place(entries[listed[j] as int]), place(entries[listed[k] as int])));
}

/// Entries are chosen once each, in the order of the index.
pub proof fn law_chosen_once(
    entries: Seq<EntryView>,
    filter: Option<Seq<Seq<char>>>,
    kind: Kind,
    n: nat,
)
    requires
        n <= entries.len(),
        n <= usize::MAX,
    ensures
        forall|i: int, j: int|
            0 <= i < j < chosen(entries, filter, kind, n).len() ==> #[trigger] chosen(
                entries,
                filter,
                kind,
                n,
            )[i] < #[trigger] chosen(entries, filter, kind, n)[j],
    decreases n,
{
    if n > 0 {
        let m = (n - 1) as nat;
        law_chosen_once(entries, filter, kind, m);
        lemma_chosen(entries, filter, kind, m);
    }
}

/// Files come by the block and the offset in it at which their bytes start, and files
/// without bytes come after all others, as long as no block has the greatest number that
/// there is.
pub proof fn law_files_come_by_place(
    entries: Seq<EntryView>,
    at: Seq<usize>,
    listed: Seq<usize>,
    i: int,
    j: int,
)
    requires
        is_block_order(entries, at, listed),
        at.len() <= usize::MAX,
        0 <= i < j < listed.len(),
    ensures
        ({
            let a = entries[listed[i] as int].segments;
            let b = entries[listed[j] as int].segments;
            &&& a.len() > 0 && b.len() > 0 ==> a[0].block < b[0].block || (a[0].block == b[0].block
                && a[0].offset <= b[0].offset)
            &&& a.len() == 0 && b.len() > 0 ==> b[0].block == u32::MAX
        }),
{
    law_block_order(entries, at, listed);
    assert(place_le(place(entries[listed[i] as int]), place(entries[listed[j] as int])));
}

/// A selection covers a path exactly if it is everything, or some pattern of it selects the
/// path; so it covers more, the more patterns it has.
pub proof fn law_selection(path: Seq<char>, patterns: Seq<Seq<char>>, pattern: Seq<char>)
    ensures
        is_wanted(path, None),
        !is_wanted(path, Some(Seq::empty())),
        is_wanted(path, Some(patterns.push(pattern))) <==> is_wanted(path, Some(patterns))
            || selects(path, pattern),
{
    let more = patterns.push(pattern);
    if is_wanted(path, Some(patterns)) {
        let i = choose|i: int| 0 <= i < patterns.len() && selects(path, #[trigger] patterns[i]);
        assert(selects(path, more[i]));
    }
    if selects(path, pattern) {
        assert(selects(path, more[patterns.len() as int]));
    }
    if is_wanted(path, Some(more)) {
        let i = choose|i: int| 0 <= i < more.len() && selects(path, #[trigger] more[i]);
        if i < patterns.len() {
            assert(selects(path, patterns[i]));
        }
    }
}

/// Whether a selection covers a path.
pub fn wanted(path: &str, filter: &Option<Vec<String>>) -> (r: bool)
    ensures
        r == is_wanted(path@, filter_view(*filter)),
{
    match filter {
        None => true,
        Some(patterns) => {
            let mut i: usize = 0;
            while i < patterns.len()
                invariant
                    i <= patterns@.len(),
                    *filter == Some(*patterns),
                    forall|k: int|
                        0 <= k < i ==> !selects(path@, #[trigger] pattern_views(patterns@)[k]),
                decreases patterns@.len() - i,
            {
                assert(pattern_views(patterns@)[i as int] == patterns@[i as int]@);
                if matches_path(path, &patterns[i]) {
                    let ghost views = pattern_views(patterns@);
                    assert(any_selects(path@, views)) by {
                        assert(selects(path@, views[i as int]));
                    }
                    return true;
                }
                i += 1;
            }
            false
        },
    }
}

/// The positions of the entries of a kind that a selection covers.
pub fn choose_entries(entries: &Vec<Entry>, filter: &Option<Vec<String>>, kind: Kind) -> (at: Vec<
    usize,
>)
    ensures
        at@ == chosen(entry_views(entries@), filter_view(*filter), kind, entries@.len()),
{
    let mut at: Vec<usize> = Vec::new();
    let mut i: usize = 0;
    let ghost views = entry_views(entries@);
    while i < entries.len()
        invariant
            i <= entries@.len(),
            views == entry_views(entries@),
            at@ == chosen(views, filter_view(*filter), kind, i as nat),
        decreases entries@.len() - i,
    {
        assert(views[i as int] == entries@[i as int]@);
        if entries[i].kind == kind && wanted(&entries[i].path, filter) {
            at.push(i);
        }
        i += 1;
    }
    at
}

/// A file's place, ready to be compared.
pub struct PlaceKey {
    pub block: u32,
    pub offset: u64,
}

impl Key for PlaceKey {
    open spec fn leq(&self, other: &Self) -> bool {
        place_le((self.block, self.offset), (other.block, other.offset))
    }

    proof fn total(a: &Self, b: &Self) {
    }

    proof fn transitive(a: &Self, b: &Self, c: &Self) {
    }

    fn no_greater(&self, other: &Self) -> (r: bool) {
        self.block < other.block || (self.block == other.block && self.offset <= other.offset)
    }
}

/// Some files in the order of their places.
pub fn in_block_order(entries: &Vec<Entry>, at: &Vec<usize>) -> (listed: Vec<usize>)
    requires
        forall|i: int| 0 <= i < at@.len() ==> #[trigger] at@[i] < entries@.len(),
    ensures
        is_block_order(entry_views(entries@), at@, listed@),
{
    let ghost views = entry_views(entries@);
    let mut keys: Vec<PlaceKey> = Vec::new();
    let mut i: usize = 0;
    while i < at.len()
        invariant
            i <= at@.len(),
            views == entry_views(entries@),
            forall|j: int| 0 <= j < at@.len() ==> #[trigger] at@[j] < entries@.len(),
            keys@.len() == i,
            forall|j: int|
                0 <= j < i ==> ((#[trigger] keys@[j]).block, keys@[j].offset) == place(
                    views[at@[j] as int],
                ),
        decreases at@.len() - i,
    {
        assert(at@[i as int] < entries@.len());
        let e = &entries[at[i]];
        assert(views[at@[i as int] as int] == e@);
        if e.segments.len() > 0 {
            let s = e.segments[0];
            keys.push(PlaceKey { block: s.block, offset: s.offset });
        } else {
            keys.push(PlaceKey { block: u32::MAX, offset: 0 });
        }
        i += 1;
    }
    let order = stable_order(&keys);
    proof {
        let le = |a: int, b: int|
            place_le(place(views[at@[a] as int]), place(views[at@[b] as int]));
        lemma_order_by_keys(keys@, le, order@);
        assert(is_place_order(views, at@, order@));
    }
    let mut listed: Vec<usize> = Vec::new();
    let mut j: usize = 0;
    while j < order.len()
        invariant
            j <= order@.len(),
            is_place_order(views, at@, order@),
            listed@.len() == j,
            forall|k: int| 0 <= k < j ==> #[trigger] listed@[k] == at@[order@[k] as int],
        decreases order@.len() - j,
    {
        assert(0 <= order@[j as int] < at@.len());
        listed.push(at[order[j]]);
        j += 1;
    }
    assert(listed@ =~= rearranged(at@, order@));
    listed
}

} // verus!
