//! Reading one dump file: text in, an address-to-value mapping out.
use vstd::prelude::*;
use std::collections::BTreeMap;
use crate::number::{parse_u64, parse_u64_chars};
use crate::text::{
    chars_of, split_chars, split_on, string_of, strip_0x_prefix, strip_0x_prefix_chars,
    strip_h_suffix, strip_h_suffix_chars, trim, trim_chars,
};

verus! {

/// The field (counted from zero) of a line that holds the address.
pub const ADDRESS_COLUMN: usize = 2;

/// The field (counted from zero) of a line that holds the value.
pub const VALUE_COLUMN: usize = 5;

/// One parsed file: its name, and the raw value stored at each address.
/// `addresses` lists each address once, in the order it first appeared.
pub struct ParsedFile {
    file_name: String,
    address_to_data: BTreeMap<u64, String>,
    addresses: Vec<u64>,
}

impl ParsedFile {
    /// The address list and the mapping agree.
    pub closed spec fn wf(&self) -> bool {
        &&& self.addresses@.no_duplicates()
        &&& self.addresses@.to_set() == self.address_to_data@.dom()
    }

    /// The file's name.
    pub closed spec fn name(&self) -> Seq<char> {
        self.file_name@
    }

    /// The raw value stored at each address.
    pub closed spec fn data(&self) -> Map<u64, Seq<char>> {
        self.address_to_data@.map_values(|v: String| v@)
    }

    /// The addresses, each once, in the order they first appeared.
    pub closed spec fn order(&self) -> Seq<u64> {
        self.addresses@
    }

    /// A file named `file_name` with no data.
    pub fn new(file_name: String) -> (r: ParsedFile)
        ensures
            r.name() == file_name@,
            r.data() == Map::<u64, Seq<char>>::empty(),
            r.order() == Seq::<u64>::empty(),
            r.wf(),
    {
        let r = ParsedFile { file_name, address_to_data: BTreeMap::new(), addresses: Vec::new() };
        assert(r.data() =~= Map::<u64, Seq<char>>::empty());
        assert(r.addresses@.to_set() =~= r.address_to_data@.dom());
        r
    }

    /// Stores `value` at `addr`, replacing what was there.
    pub fn insert(&mut self, addr: u64, value: String)
        requires
            old(self).wf(),
        ensures
            final(self).wf(),
            final(self).name() == old(self).name(),
            final(self).data() == old(self).data().insert(addr, value@),
            final(self).order() == if old(self).data().contains_key(addr) {
                old(self).order()
            } else {
                old(self).order().push(addr)
            },
    {
        let ghost old_map = self.address_to_data@;
        if !self.address_to_data.contains_key(&addr) {
            self.addresses.push(addr);
        }
        self.address_to_data.insert(addr, value);
        proof {
            assert(self.address_to_data@.map_values(|v: String| v@) =~= old_map.map_values(
                |v: String| v@,
            ).insert(addr, value@));
            assert(self.addresses@.to_set() =~= self.address_to_data@.dom()) by {
                if !old_map.contains_key(addr) {
                    vstd::seq_lib::lemma_seq_contains_after_push(
                        old(self).addresses@,
                        addr,
                        addr,
                    );
                    assert forall|b: u64| self.addresses@.contains(b) <==> old(self).addresses@.contains(b) || b == addr by {
                        vstd::seq_lib::lemma_seq_contains_after_push(old(self).addresses@, addr, b);
                    }
                }
            }
            assert(self.addresses@.no_duplicates()) by {
                if !old_map.contains_key(addr) {
                    assert(!old(self).addresses@.to_set().contains(addr));
                }
            }
        }
    }

    /// The raw value stored at `addr`, if any.
    pub fn get(&self, addr: u64) -> (r: Option<&String>)
        ensures
            match r {
                Some(v) => self.data().contains_key(addr) && v@ == self.data()[addr],
                None => !self.data().contains_key(addr),
            },
    {
        self.address_to_data.get(&addr)
    }

    /// Whether some value is stored at `addr`.
    pub fn contains(&self, addr: u64) -> (r: bool)
        ensures
            r == self.data().contains_key(addr),
    {
        self.address_to_data.contains_key(&addr)
    }

    /// The file's name.
    pub fn file_name(&self) -> (r: &String)
        ensures
            r@ == self.name(),
    {
        &self.file_name
    }

    /// The addresses, each once, in the order they first appeared.
    pub fn addresses(&self) -> (r: &Vec<u64>)
        requires
            self.wf(),
        ensures
            r@ == self.order(),
            r@.no_duplicates(),
            r@.to_set() == self.data().dom(),
    {
        proof {
            assert(self.data().dom() =~= self.address_to_data@.dom());
        }
        &self.addresses
    }

    /// How many addresses hold a value.
    pub fn len(&self) -> (r: usize)
        requires
            self.wf(),
        ensures
            r == self.data().len(),
    {
        proof {
            self.addresses@.unique_seq_to_set();
            assert(self.data().dom() =~= self.address_to_data@.dom());
        }
        self.addresses.len()
    }
}

/// Whether a trimmed line is the end marker `END`, in any letter case.
pub open spec fn is_end_marker(t: Seq<char>) -> bool {
    &&& t.len() == 3
    &&& (t[0] == 'E' || t[0] == 'e')
    &&& (t[1] == 'N' || t[1] == 'n')
    &&& (t[2] == 'D' || t[2] == 'd')
}

/// The record a line holds: the address field read as hex (after removing trailing `h`s and
/// leading `0x`es) and the trimmed value field; `None` for a blank or malformed line.
pub open spec fn line_record(line: Seq<char>) -> Option<(u64, Seq<char>)> {
    let parts = split_on(trim(line), '\t');
    if parts.len() <= ADDRESS_COLUMN {
        None
    } else {
        let a = trim(parts[ADDRESS_COLUMN as int]);
        let d = if parts.len() > VALUE_COLUMN {
            trim(parts[VALUE_COLUMN as int])
        } else {
            Seq::empty()
        };
        if a.len() == 0 || d.len() == 0 {
            None
        } else {
            match parse_u64(strip_0x_prefix(strip_h_suffix(a)), 16) {
                Some(v) => Some((v, d)),
                None => None,
            }
        }
    }
}

/// How many lines come before the first end marker (all of them if there is none).
pub open spec fn first_end(lines: Seq<Seq<char>>) -> nat
    decreases lines.len(),
{
    if lines.len() == 0 || is_end_marker(trim(lines[0])) {
        0
    } else {
        1 + first_end(lines.drop_first())
    }
}

/// The mapping that `lines` give, a later record for an address replacing an earlier one.
pub open spec fn fold_records(lines: Seq<Seq<char>>) -> Map<u64, Seq<char>>
    decreases lines.len(),
{
    if lines.len() == 0 {
        Map::empty()
    } else {
        let m = fold_records(lines.drop_last());
        match line_record(lines.last()) {
            Some((a, d)) => m.insert(a, d),
            None => m,
        }
    }
}

/// The lines of `content`.
pub open spec fn text_lines(content: Seq<char>) -> Seq<Seq<char>> {
    split_on(content, '\n')
}

/// The mapping that a file's text gives: the records of the lines before the end marker.
pub open spec fn parse_records(content: Seq<char>) -> Map<u64, Seq<char>> {
    let lines = text_lines(content);
    fold_records(lines.take(first_end(lines) as int))
}

fn is_end_marker_chars(t: &Vec<char>) -> (r: bool)
    ensures
        r == is_end_marker(t@),
{
    t.len() == 3 && (t[0] == 'E' || t[0] == 'e') && (t[1] == 'N' || t[1] == 'n') && (t[2] == 'D'
        || t[2] == 'd')
}

/// The record that `line` holds, if it is well formed.
pub fn parse_line(line: &Vec<char>) -> (r: Option<(u64, Vec<char>)>)
    ensures
        match r {
            Some((a, d)) => line_record(line@) == Some((a, d@)),
            None => line_record(line@) is None,
        },
{
    let parts = split_chars(&trim_chars(line), '\t');
    if parts.len() <= ADDRESS_COLUMN {
        return None;
    }
    let a = trim_chars(&parts[ADDRESS_COLUMN]);
    let d = if parts.len() > VALUE_COLUMN {
        trim_chars(&parts[VALUE_COLUMN])
    } else {
        Vec::new()
    };
    if a.len() == 0 || d.len() == 0 {
        return None;
    }
    match parse_u64_chars(&strip_0x_prefix_chars(&strip_h_suffix_chars(&a)), 16) {
        Some(v) => Some((v, d)),
        None => None,
    }
}

fn find_end(lines: &Vec<Vec<char>>, spec_lines: Ghost<Seq<Seq<char>>>) -> (r: usize)
    requires
        lines.len() == spec_lines@.len(),
        forall|k: int| 0 <= k < lines.len() ==> #[trigger] lines[k]@ == spec_lines@[k],
    ensures
        r == first_end(spec_lines@),
{
    let ghost ls = spec_lines@;
    let n = lines.len();
    let mut i: usize = 0;
    assert(ls.subrange(0, n as int) =~= ls);
    while i < n && !is_end_marker_chars(&trim_chars(&lines[i]))
        invariant
            i <= n == lines.len() == ls.len(),
            ls == spec_lines@,
            forall|k: int| 0 <= k < lines.len() ==> #[trigger] lines[k]@ == ls[k],
            first_end(ls) == i + first_end(ls.subrange(i as int, n as int)),
        decreases n - i,
    {
        assert(ls.subrange(i as int, n as int).drop_first() =~= ls.subrange(i + 1, n as int));
        i = i + 1;
    }
    i
}

/// Parses the text of a file named `file_name`.
pub fn parse_content(file_name: String, content: &str) -> (r: ParsedFile)
    ensures
        r.name() == file_name@,
        r.data() == parse_records(content@),
        r.wf(),
{
    let cs = chars_of(content);
    let lines = split_chars(&cs, '\n');
    let ghost ls = text_lines(content@);
    let end = find_end(&lines, Ghost(ls));
    proof {
        lemma_first_end_bound(ls);
    }
    let mut pf = ParsedFile::new(file_name);
    let mut i: usize = 0;
    assert(ls.take(0) =~= Seq::<Seq<char>>::empty());
    while i < end
        invariant
            i <= end == first_end(ls) <= ls.len() == lines.len(),
            ls == text_lines(content@),
            forall|k: int| 0 <= k < lines.len() ==> #[trigger] lines[k]@ == ls[k],
            pf.name() == file_name@,
            pf.wf(),
            pf.data() == fold_records(ls.take(i as int)),
        decreases end - i,
    {
        assert(ls.take(i + 1).drop_last() =~= ls.take(i as int));
        match parse_line(&lines[i]) {
            Some((a, d)) => {
                pf.insert(a, string_of(&d));
            },
            None => {},
        }
        i = i + 1;
    }
    pf
}

proof fn lemma_first_end_bound(lines: Seq<Seq<char>>)
    ensures
        first_end(lines) <= lines.len(),
    decreases lines.len(),
{
    if lines.len() > 0 {
        lemma_first_end_bound(lines.drop_first());
    }
}

/// The lines of `lines` that hold a record, in their order.
pub open spec fn record_lines(lines: Seq<Seq<char>>) -> Seq<Seq<char>> {
    lines.filter(|l: Seq<char>| line_record(l) is Some)
}

/// Malformed lines change nothing: the mapping depends only on the lines that hold a record,
/// in their order, wherever the other lines stand among them.
pub proof fn lemma_malformed_lines_ignored(lines: Seq<Seq<char>>)
    ensures
        fold_records(lines) == fold_records(record_lines(lines)),
    decreases lines.len(),
{
    reveal(Seq::filter);
    if lines.len() > 0 {
        lemma_malformed_lines_ignored(lines.drop_last());
        let f = record_lines(lines);
        let g = record_lines(lines.drop_last());
        if line_record(lines.last()) is Some {
            assert(f == g.push(lines.last()));
            assert(f.drop_last() =~= g);
        } else {
            assert(f == g);
        }
    }
}

/// The address of the record that line `l` holds.
pub open spec fn record_address(l: Seq<char>) -> u64 {
    match line_record(l) {
        Some((a, _)) => a,
        None => 0,
    }
}

proof fn lemma_fold_dom(rs: Seq<Seq<char>>)
    ensures
        fold_records(rs).dom().finite(),
        forall|a: u64|
            fold_records(rs).contains_key(a) ==> exists|i: int|
                0 <= i < rs.len() && line_record(rs[i]) is Some && #[trigger] record_address(rs[i])
                    == a,
    decreases rs.len(),
{
    if rs.len() > 0 {
        let init = rs.drop_last();
        lemma_fold_dom(init);
        assert forall|a: u64| fold_records(rs).contains_key(a) implies exists|i: int|
            0 <= i < rs.len() && line_record(rs[i]) is Some && #[trigger] record_address(rs[i])
                == a by {
            if fold_records(init).contains_key(a) {
                let i = choose|i: int|
                    0 <= i < init.len() && line_record(init[i]) is Some && #[trigger] record_address(
                        init[i],
                    ) == a;
                assert(rs[i] == init[i]);
            } else {
                assert(rs[rs.len() - 1] == rs.last());
                assert(line_record(rs.last()) is Some);
                assert(record_address(rs[rs.len() - 1]) == a);
            }
        }
    }
}

proof fn lemma_record_count(rs: Seq<Seq<char>>)
    requires
        forall|i: int| 0 <= i < rs.len() ==> line_record(#[trigger] rs[i]) is Some,
        forall|i: int, j: int|
            0 <= i < j < rs.len() ==> record_address(rs[i]) != record_address(rs[j]),
    ensures
        fold_records(rs).len() == rs.len(),
    decreases rs.len(),
{
    if rs.len() > 0 {
        let init = rs.drop_last();
        assert forall|i: int| 0 <= i < init.len() implies line_record(#[trigger] init[i]) is Some by {
            assert(init[i] == rs[i]);
        }
        assert forall|i: int, j: int| 0 <= i < j < init.len() implies record_address(init[i])
            != record_address(init[j]) by {
            assert(init[i] == rs[i]);
            assert(init[j] == rs[j]);
        }
        lemma_record_count(init);
        lemma_fold_dom(init);
        assert(line_record(rs[rs.len() - 1]) is Some);
        let a = record_address(rs.last());
        assert(!fold_records(init).contains_key(a)) by {
            if fold_records(init).contains_key(a) {
                let i = choose|i: int|
                    0 <= i < init.len() && line_record(init[i]) is Some && #[trigger] record_address(
                        init[i],
                    ) == a;
                assert(init[i] == rs[i]);
                assert(record_address(rs[i]) != record_address(rs[rs.len() - 1]));
            }
        }
    }
}

/// When the lines that hold a record name distinct addresses, the mapping has exactly one
/// entry per such line, however many malformed lines stand among them.
pub proof fn lemma_one_entry_per_record(lines: Seq<Seq<char>>)
    requires
        forall|i: int, j: int|
            0 <= i < j < record_lines(lines).len() ==> record_address(record_lines(lines)[i])
                != record_address(record_lines(lines)[j]),
    ensures
        fold_records(lines).len() == record_lines(lines).len(),
{
    let rs = record_lines(lines);
    assert forall|i: int| 0 <= i < rs.len() implies line_record(#[trigger] rs[i]) is Some by {
        lines.lemma_filter_pred(|l: Seq<char>| line_record(l) is Some, i);
    }
    lemma_record_count(rs);
    lemma_malformed_lines_ignored(lines);
}

} // verus!
