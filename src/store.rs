//! The loaded files, the addresses they all share, and the display choices.
use vstd::prelude::*;
use crate::group::{group_values, is_grouping, shown_value, shown_value_of, GroupEntry};
use crate::number::{format_addr, hex_prefixed, DisplayBase};
use crate::parser::ParsedFile;
use crate::text::{chars_of, string_of};

verus! {

/// What the chart annotations show: a share of all files, or a count.
#[derive(Clone, Copy, Debug, PartialEq, Eq, Structural)]
pub enum StatsMetric {
    Percent,
    Count,
}

impl Default for StatsMetric {
    /// Counts.
    fn default() -> (r: StatsMetric)
        ensures
            r == StatsMetric::Count,
    {
        StatsMetric::Count
    }
}

/// The addresses present in every one of `files`; none when there are no files.
pub open spec fn common_addresses(files: Seq<ParsedFile>) -> Set<u64> {
    if files.len() == 0 {
        Set::empty()
    } else {
        Set::new(|a: u64| forall|i: int| 0 <= i < files.len() ==> #[trigger] files[i].data().contains_key(a))
    }
}

/// Each element of `s` is smaller than every later one.
pub open spec fn strictly_increasing(s: Seq<u64>) -> bool {
    forall|i: int, j: int| 0 <= i < j < s.len() ==> s[i] < s[j]
}

/// Whether `s` lists exactly the addresses common to `files`, in increasing order.
pub open spec fn lists_common(s: Seq<u64>, files: Seq<ParsedFile>) -> bool {
    &&& strictly_increasing(s)
    &&& s.to_set() == common_addresses(files)
}

/// The base after `b` in the cycle Hex, Bin, Dec.
pub open spec fn next_base(b: DisplayBase) -> DisplayBase {
    match b {
        DisplayBase::Hex => DisplayBase::Bin,
        DisplayBase::Bin => DisplayBase::Dec,
        DisplayBase::Dec => DisplayBase::Hex,
    }
}

/// The other metric.
pub open spec fn other_metric(m: StatsMetric) -> StatsMetric {
    match m {
        StatsMetric::Percent => StatsMetric::Count,
        StatsMetric::Count => StatsMetric::Percent,
    }
}

fn insert_sorted(v: &mut Vec<u64>, x: u64)
    requires
        strictly_increasing(old(v)@),
        !old(v)@.contains(x),
    ensures
        strictly_increasing(final(v)@),
        forall|y: u64| final(v)@.contains(y) <==> (old(v)@.contains(y) || y == x),
{
    let mut p: usize = 0;
    while p < v.len() && v[p] < x
        invariant
            p <= v.len(),
            forall|i: int| 0 <= i < p ==> v[i] < x,
        decreases v.len() - p,
    {
        p = p + 1;
    }
    let ghost before = v@;
    if p < v.len() {
        assert(v[p as int] != x);
    }
    v.insert(p, x);
    assert forall|y: u64| v@.contains(y) <==> (before.contains(y) || y == x) by {
        if v@.contains(y) {
            let i = choose|i: int| 0 <= i < v@.len() && #[trigger] v@[i] == y;
            if i < p {
                assert(before[i] == y);
            } else if i > p {
                assert(before[i - 1] == y);
            }
        }
        if before.contains(y) {
            let i = choose|i: int| 0 <= i < before.len() && #[trigger] before[i] == y;
            if i < p {
                assert(v@[i] == y);
            } else {
                assert(v@[i + 1] == y);
            }
        }
        if y == x {
            assert(v@[p as int] == x);
        }
    }
}

fn in_every_file(files: &Vec<ParsedFile>, a: u64) -> (r: bool)
    ensures
        r == forall|i: int| 0 <= i < files.len() ==> #[trigger] files[i].data().contains_key(a),
{
    let mut i: usize = 0;
    while i < files.len()
        invariant
            i <= files.len(),
            forall|k: int| 0 <= k < i ==> #[trigger] files[k].data().contains_key(a),
        decreases files.len() - i,
    {
        if !files[i].contains(a) {
            return false;
        }
        i = i + 1;
    }
    true
}

/// The addresses present in every one of `files`, in increasing order; none for no files.
pub fn common_addresses_of(files: &Vec<ParsedFile>) -> (r: Vec<u64>)
    requires
        forall|i: int| 0 <= i < files.len() ==> #[trigger] files[i].wf(),
    ensures
        lists_common(r@, files@),
{
    let mut out: Vec<u64> = Vec::new();
    if files.len() == 0 {
        assert(out@.to_set() =~= common_addresses(files@));
        return out;
    }
    assert(files[0].wf());
    let first = files[0].addresses();
    let mut k: usize = 0;
    while k < first.len()
        invariant
            k <= first.len(),
            files.len() > 0,
            first@ == files[0].order(),
            first@.no_duplicates(),
            first@.to_set() == files[0].data().dom(),
            strictly_increasing(out@),
            forall|x: u64|
                out@.contains(x) <==> (first@.take(k as int).contains(x) && forall|i: int|
                    0 <= i < files.len() ==> #[trigger] files[i].data().contains_key(x)),
        decreases first.len() - k,
    {
        let a = first[k];
        assert forall|x: u64| first@.take(k + 1).contains(x) <==> (first@.take(k as int).contains(x) || x == a) by {
            if first@.take(k + 1).contains(x) {
                let i = choose|i: int| 0 <= i < k + 1 && #[trigger] first@.take(k + 1)[i] == x;
                if i < k {
                    assert(first@.take(k as int)[i] == x);
                }
            }
            if first@.take(k as int).contains(x) {
                let i = choose|i: int| 0 <= i < k && #[trigger] first@.take(k as int)[i] == x;
                assert(first@.take(k + 1)[i] == x);
            }
            if x == a {
                assert(first@.take(k + 1)[k as int] == x);
            }
        }
        if in_every_file(files, a) {
            assert(!first@.take(k as int).contains(a)) by {
                if first@.take(k as int).contains(a) {
                    let i = choose|i: int| 0 <= i < k && #[trigger] first@.take(k as int)[i] == a;
                    assert(first@[i] == first@[k as int]);
                }
            }
            insert_sorted(&mut out, a);
        }
        k = k + 1;
    }
    assert(first@.take(first.len() as int) =~= first@);
    assert forall|x: u64| out@.contains(x) <==> common_addresses(files@).contains(x) by {
        if common_addresses(files@).contains(x) {
            assert(files[0].data().contains_key(x));
            assert(first@.to_set().contains(x));
        }
    }
    assert(out@.to_set() =~= common_addresses(files@));
    out
}

/// The CSV header cells: `address`, then each file's name, comma separated.
pub open spec fn csv_header(files: Seq<ParsedFile>) -> Seq<char>
    decreases files.len(),
{
    if files.len() == 0 {
        seq!['a', 'd', 'd', 'r', 'e', 's', 's']
    } else {
        csv_header(files.drop_last()) + seq![','] + files.last().name()
    }
}

/// The CSV cells of `addr`: the address, then each file's shown value, comma separated.
pub open spec fn csv_cells(files: Seq<ParsedFile>, addr: u64, base: DisplayBase) -> Seq<char>
    decreases files.len(),
{
    if files.len() == 0 {
        hex_prefixed(addr as nat)
    } else {
        csv_cells(files.drop_last(), addr, base) + seq![','] + shown_value(files.last(), addr, base)
    }
}

/// One CSV line per address of `addrs`, in order.
pub open spec fn csv_rows(files: Seq<ParsedFile>, addrs: Seq<u64>, base: DisplayBase) -> Seq<char>
    decreases addrs.len(),
{
    if addrs.len() == 0 {
        Seq::empty()
    } else {
        csv_rows(files, addrs.drop_last(), base) + csv_cells(files, addrs.last(), base) + seq!['\n']
    }
}

/// The CSV export of `files` over `addrs`: a header line, then one line per address.
pub open spec fn csv_text(files: Seq<ParsedFile>, addrs: Seq<u64>, base: DisplayBase) -> Seq<char> {
    csv_header(files) + seq!['\n'] + csv_rows(files, addrs, base)
}

fn push_all(out: &mut Vec<char>, s: &Vec<char>)
    ensures
        final(out)@ == old(out)@ + s@,
{
    let ghost start = out@;
    let mut i: usize = 0;
    while i < s.len()
        invariant
            i <= s.len(),
            out@ == start + s@.subrange(0, i as int),
        decreases s.len() - i,
    {
        out.push(s[i]);
        i = i + 1;
        assert(out@ =~= start + s@.subrange(0, i as int));
    }
    assert(s@.subrange(0, s.len() as int) =~= s@);
}

fn csv_cells_of(files: &Vec<ParsedFile>, addr: u64, base: DisplayBase) -> (r: Vec<char>)
    ensures
        r@ == csv_cells(files@, addr, base),
{
    let mut r = chars_of(format_addr(addr).as_str());
    let mut j: usize = 0;
    assert(files@.take(0) =~= Seq::<ParsedFile>::empty());
    while j < files.len()
        invariant
            j <= files.len(),
            r@ == csv_cells(files@.take(j as int), addr, base),
        decreases files.len() - j,
    {
        assert(files@.take(j + 1).drop_last() =~= files@.take(j as int));
        r.push(',');
        push_all(&mut r, &chars_of(shown_value_of(&files[j], addr, base).as_str()));
        j = j + 1;
    }
    assert(files@.take(files.len() as int) =~= files@);
    r
}

/// The CSV text of `files` over `addrs` under `base`.
pub fn csv_text_of(files: &Vec<ParsedFile>, addrs: &Vec<u64>, base: DisplayBase) -> (r: String)
    ensures
        r@ == csv_text(files@, addrs@, base),
{
    let mut r: Vec<char> = Vec::new();
    push_all(&mut r, &vec!['a', 'd', 'd', 'r', 'e', 's', 's']);
    let mut j: usize = 0;
    assert(files@.take(0) =~= Seq::<ParsedFile>::empty());
    assert(r@ =~= csv_header(Seq::<ParsedFile>::empty()));
    while j < files.len()
        invariant
            j <= files.len(),
            r@ == csv_header(files@.take(j as int)),
        decreases files.len() - j,
    {
        assert(files@.take(j + 1).drop_last() =~= files@.take(j as int));
        r.push(',');
        push_all(&mut r, &chars_of(files[j].file_name().as_str()));
        j = j + 1;
    }
    assert(files@.take(files.len() as int) =~= files@);
    r.push('\n');
    let ghost head = r@;
    let mut k: usize = 0;
    assert(addrs@.take(0) =~= Seq::<u64>::empty());
    assert(r@ =~= head + csv_rows(files@, addrs@.take(0), base));
    while k < addrs.len()
        invariant
            k <= addrs.len(),
            head == csv_header(files@) + seq!['\n'],
            r@ == head + csv_rows(files@, addrs@.take(k as int), base),
        decreases addrs.len() - k,
    {
        assert(addrs@.take(k + 1).drop_last() =~= addrs@.take(k as int));
        assert(addrs@.take(k + 1).last() == addrs@[k as int]);
        push_all(&mut r, &csv_cells_of(files, addrs[k], base));
        r.push('\n');
        assert(r@ =~= head + csv_rows(files@, addrs@.take(k + 1), base));
        k = k + 1;
    }
    assert(addrs@.take(addrs.len() as int) =~= addrs@);
    string_of(&r)
}

/// The viewer's state: the loaded files in load order, the addresses they all share, the
/// selected row of the address table, and the display choices.
pub struct AppState {
    files: Vec<ParsedFile>,
    intersect_addresses: Vec<u64>,
    selected_row: Option<usize>,
    display_base: DisplayBase,
    stats_metric: StatsMetric,
}

impl AppState {
    /// The shared addresses always agree with the loaded files.
    pub closed spec fn wf(&self) -> bool {
        &&& forall|i: int| 0 <= i < self.files.len() ==> #[trigger] self.files[i].wf()
        &&& lists_common(self.intersect_addresses@, self.files@)
    }

    /// The loaded files, in load order.
    pub closed spec fn loaded(&self) -> Seq<ParsedFile> {
        self.files@
    }

    /// The addresses present in every loaded file, in increasing order.
    pub closed spec fn shared(&self) -> Seq<u64> {
        self.intersect_addresses@
    }

    /// The selected row of the address table.
    pub closed spec fn selection(&self) -> Option<usize> {
        self.selected_row
    }

    /// The base values are shown in.
    pub closed spec fn base(&self) -> DisplayBase {
        self.display_base
    }

    /// What chart annotations show.
    pub closed spec fn metric(&self) -> StatsMetric {
        self.stats_metric
    }

    /// No files, hex display, counts on the charts, nothing selected.
    pub fn new() -> (r: AppState)
        ensures
            r.wf(),
            r.loaded() == Seq::<ParsedFile>::empty(),
            r.shared() == Seq::<u64>::empty(),
            r.selection() is None,
            r.base() == DisplayBase::Hex,
            r.metric() == StatsMetric::Count,
    {
        let r = AppState {
            files: Vec::new(),
            intersect_addresses: Vec::new(),
            selected_row: None,
            display_base: DisplayBase::Hex,
            stats_metric: StatsMetric::Count,
        };
        assert(r.intersect_addresses@.to_set() =~= common_addresses(r.files@));
        r
    }

    /// Recomputes the shared addresses from all loaded files.
    pub fn recalc_intersection(&mut self)
        requires
            forall|i: int| 0 <= i < old(self).loaded().len() ==> #[trigger] old(self).loaded()[i].wf(),
        ensures
            final(self).wf(),
            final(self).loaded() == old(self).loaded(),
            lists_common(final(self).shared(), final(self).loaded()),
            final(self).selection() == old(self).selection(),
            final(self).base() == old(self).base(),
            final(self).metric() == old(self).metric(),
    {
        assert forall|i: int| 0 <= i < self.files.len() implies #[trigger] self.files[i].wf() by {
            assert(old(self).loaded()[i].wf());
        }
        self.intersect_addresses = common_addresses_of(&self.files);
    }

    /// Appends `batch` to the loaded files, in order, and recomputes the shared addresses.
    pub fn add_files(&mut self, batch: Vec<ParsedFile>)
        requires
            old(self).wf(),
            forall|i: int| 0 <= i < batch.len() ==> #[trigger] batch[i].wf(),
        ensures
            final(self).wf(),
            final(self).loaded() == old(self).loaded() + batch@,
            lists_common(final(self).shared(), final(self).loaded()),
            final(self).selection() == old(self).selection(),
            final(self).base() == old(self).base(),
            final(self).metric() == old(self).metric(),
    {
        let ghost added = batch@;
        let mut batch = batch;
        let ghost all = old(self).files@ + batch@;
        let ghost start = self.files.len();
        self.files.append(&mut batch);
        assert(self.files@ == all);
        assert forall|i: int| 0 <= i < self.files.len() implies #[trigger] self.files[i].wf() by {
            if i >= start {
                assert(self.files@[i] == added[i - start]);
            }
        }
        self.recalc_intersection();
    }

    /// Removes every file; no address is shared any more.
    pub fn clear(&mut self)
        ensures
            final(self).wf(),
            final(self).loaded() == Seq::<ParsedFile>::empty(),
            final(self).shared() == Seq::<u64>::empty(),
            final(self).selection() == old(self).selection(),
            final(self).base() == old(self).base(),
            final(self).metric() == old(self).metric(),
    {
        self.files = Vec::new();
        self.intersect_addresses = Vec::new();
        assert(self.intersect_addresses@.to_set() =~= common_addresses(self.files@));
    }

    /// The loaded files, in load order.
    pub fn files(&self) -> (r: &Vec<ParsedFile>)
        ensures
            r@ == self.loaded(),
    {
        &self.files
    }

    /// The addresses present in every loaded file, in increasing order.
    pub fn intersect_addresses(&self) -> (r: &Vec<u64>)
        ensures
            r@ == self.shared(),
    {
        &self.intersect_addresses
    }

    /// The base values are shown in.
    pub fn display_base(&self) -> (r: DisplayBase)
        ensures
            r == self.base(),
    {
        self.display_base
    }

    /// Moves to the next base: Hex, then Bin, then Dec, then Hex again.
    pub fn cycle_display_base(&mut self)
        requires
            old(self).wf(),
        ensures
            final(self).wf(),
            final(self).base() == next_base(old(self).base()),
            final(self).loaded() == old(self).loaded(),
            final(self).shared() == old(self).shared(),
            final(self).selection() == old(self).selection(),
            final(self).metric() == old(self).metric(),
    {
        self.display_base = match self.display_base {
            DisplayBase::Hex => DisplayBase::Bin,
            DisplayBase::Bin => DisplayBase::Dec,
            DisplayBase::Dec => DisplayBase::Hex,
        };
    }

    /// What chart annotations show.
    pub fn stats_metric(&self) -> (r: StatsMetric)
        ensures
            r == self.metric(),
    {
        self.stats_metric
    }

    /// Switches between percentages and counts.
    pub fn toggle_stats_metric(&mut self)
        requires
            old(self).wf(),
        ensures
            final(self).wf(),
            final(self).metric() == other_metric(old(self).metric()),
            final(self).loaded() == old(self).loaded(),
            final(self).shared() == old(self).shared(),
            final(self).selection() == old(self).selection(),
            final(self).base() == old(self).base(),
    {
        self.stats_metric = match self.stats_metric {
            StatsMetric::Percent => StatsMetric::Count,
            StatsMetric::Count => StatsMetric::Percent,
        };
    }

    /// Selects row `row` of the address table.
    pub fn select_row(&mut self, row: usize)
        requires
            old(self).wf(),
        ensures
            final(self).wf(),
            final(self).selection() == Some(row),
            final(self).loaded() == old(self).loaded(),
            final(self).shared() == old(self).shared(),
            final(self).base() == old(self).base(),
            final(self).metric() == old(self).metric(),
    {
        self.selected_row = Some(row);
    }

    /// The selected row of the address table.
    pub fn selected_row(&self) -> (r: Option<usize>)
        ensures
            r == self.selection(),
    {
        self.selected_row
    }

    /// The address of the selected row, when a row within the table is selected.
    pub fn selected_address(&self) -> (r: Option<u64>)
        ensures
            r == match self.selection() {
                Some(row) => if row < self.shared().len() {
                    Some(self.shared()[row as int])
                } else {
                    None
                },
                None => None,
            },
    {
        match self.selected_row {
            Some(row) => if row < self.intersect_addresses.len() {
                Some(self.intersect_addresses[row])
            } else {
                None
            },
            None => None,
        }
    }

    /// The loaded files grouped by the value they show at the selected address, when a row
    /// within the table is selected.
    pub fn selected_groups(&self) -> (r: Option<Vec<GroupEntry>>)
        ensures
            match self.selection() {
                Some(row) => if row < self.shared().len() {
                    r is Some && is_grouping(
                        r->0@,
                        self.loaded(),
                        self.shared()[row as int],
                        self.base(),
                    )
                } else {
                    r is None
                },
                None => r is None,
            },
    {
        match self.selected_address() {
            Some(addr) => Some(group_values(&self.files, addr, self.display_base)),
            None => None,
        }
    }

    /// The CSV export of the shared addresses under the current base; none while no address
    /// is shared (as when no file is loaded).
    pub fn export_csv(&self) -> (r: Option<String>)
        ensures
            self.shared().len() == 0 ==> r is None,
            self.shared().len() > 0 ==> r is Some && r->0@ == csv_text(
                self.loaded(),
                self.shared(),
                self.base(),
            ),
    {
        if self.intersect_addresses.len() == 0 {
            return None;
        }
        Some(csv_text_of(&self.files, &self.intersect_addresses, self.display_base))
    }
}

} // verus!
