//! Grouping the files by the value they show at one address.
use vstd::prelude::*;
use crate::number::{format_value, format_value_chars, DisplayBase};
use crate::parser::ParsedFile;
use crate::text::{chars_of, string_of};

verus! {

/// One shown value and the names of the files that show it, in load order.
pub struct GroupEntry {
    pub display_value: String,
    pub file_names: Vec<String>,
}

/// The raw value of `f` at `addr`; empty where `f` has none.
pub open spec fn value_at(f: ParsedFile, addr: u64) -> Seq<char> {
    if f.data().contains_key(addr) {
        f.data()[addr]
    } else {
        Seq::empty()
    }
}

/// What `f` shows at `addr` under `base`.
pub open spec fn shown_value(f: ParsedFile, addr: u64, base: DisplayBase) -> Seq<char> {
    format_value(value_at(f, addr), base)
}

/// The names, in order, of the files that show `v` at `addr` under `base`.
pub open spec fn members(files: Seq<ParsedFile>, addr: u64, base: DisplayBase, v: Seq<char>) -> Seq<
    Seq<char>,
>
    decreases files.len(),
{
    if files.len() == 0 {
        Seq::empty()
    } else {
        let m = members(files.drop_last(), addr, base, v);
        if shown_value(files.last(), addr, base) == v {
            m.push(files.last().name())
        } else {
            m
        }
    }
}

/// Lexicographic order of character strings, by code point.
pub open spec fn lex_lt(a: Seq<char>, b: Seq<char>) -> bool
    decreases a.len(),
{
    if a.len() == 0 {
        b.len() > 0
    } else if b.len() == 0 {
        false
    } else if a[0] != b[0] {
        a[0] < b[0]
    } else {
        lex_lt(a.drop_first(), b.drop_first())
    }
}

/// Whether a group of `c1` files showing `v1` is listed before one of `c2` showing `v2`:
/// larger groups first, equal sizes by value.
pub open spec fn ranks_before(c1: nat, v1: Seq<char>, c2: nat, v2: Seq<char>) -> bool {
    c1 > c2 || (c1 == c2 && lex_lt(v1, v2))
}

/// The names held by a list of strings.
pub open spec fn names_view(v: Seq<String>) -> Seq<Seq<char>> {
    v.map_values(|s: String| s@)
}

/// `e` is the group of the files that show its value, and is not empty.
pub open spec fn is_group_of(e: GroupEntry, files: Seq<ParsedFile>, addr: u64, base: DisplayBase) -> bool {
    &&& names_view(e.file_names@) == members(files, addr, base, e.display_value@)
    &&& e.file_names@.len() > 0
}

/// Each entry of `r` is the group of its value; the values are distinct; each entry ranks
/// before the next.
pub open spec fn well_ranked(r: Seq<GroupEntry>, files: Seq<ParsedFile>, addr: u64, base: DisplayBase) -> bool {
    &&& forall|i: int| 0 <= i < r.len() ==> is_group_of(#[trigger] r[i], files, addr, base)
    &&& forall|i: int, k: int|
        0 <= i < k < r.len() ==> r[i].display_value@ != r[k].display_value@
    &&& forall|i: int|
        0 <= i < r.len() - 1 ==> ranks_before(
            r[i].file_names@.len(),
            #[trigger] r[i].display_value@,
            r[i + 1].file_names@.len(),
            r[i + 1].display_value@,
        )
}

/// The value of each of the first `n` files has an entry in `r`.
pub open spec fn covers(r: Seq<GroupEntry>, files: Seq<ParsedFile>, addr: u64, base: DisplayBase, n: int) -> bool {
    forall|k: int|
        0 <= k < n ==> exists|i: int|
            0 <= i < r.len() && #[trigger] r[i].display_value@ == shown_value(
                #[trigger] files[k],
                addr,
                base,
            )
}

/// The grouping of `files` at `addr` under `base`: each entry is the group of its value, every
/// file's value has an entry, the values are distinct, and the entries are in ranking order.
pub open spec fn is_grouping(
    r: Seq<GroupEntry>,
    files: Seq<ParsedFile>,
    addr: u64,
    base: DisplayBase,
) -> bool {
    &&& well_ranked(r, files, addr, base)
    &&& covers(r, files, addr, base, files.len() as int)
}

proof fn lemma_insert_groups(before: Seq<GroupEntry>, e: GroupEntry, q: int, files: Seq<ParsedFile>, addr: u64, base: DisplayBase)
    requires
        0 <= q <= before.len(),
        forall|i: int| 0 <= i < before.len() ==> is_group_of(#[trigger] before[i], files, addr, base),
        is_group_of(e, files, addr, base),
    ensures
        forall|i: int| 0 <= i < before.len() + 1 ==> is_group_of(#[trigger] before.insert(q, e)[i], files, addr, base),
{
    let out = before.insert(q, e);
    assert forall|i: int| 0 <= i < out.len() implies is_group_of(#[trigger] out[i], files, addr, base) by {
        if i < q {
            assert(out[i] == before[i]);
        } else if i > q {
            assert(out[i] == before[i - 1]);
        }
    }
}

proof fn lemma_insert_covers(before: Seq<GroupEntry>, e: GroupEntry, q: int, files: Seq<ParsedFile>, addr: u64, base: DisplayBase, n: int)
    requires
        0 <= n < files.len(),
        0 <= q <= before.len(),
        covers(before, files, addr, base, n),
        e.display_value@ == shown_value(files[n], addr, base),
    ensures
        covers(before.insert(q, e), files, addr, base, n + 1),
{
    let out = before.insert(q, e);
    assert forall|k: int| 0 <= k < n + 1 implies exists|i: int|
        0 <= i < out.len() && #[trigger] out[i].display_value@ == shown_value(
            #[trigger] files[k],
            addr,
            base,
        ) by {
        if k < n {
            let i0 = choose|i: int|
                0 <= i < before.len() && #[trigger] before[i].display_value@ == shown_value(
                    files[k],
                    addr,
                    base,
                );
            if i0 < q {
                assert(out[i0] == before[i0]);
            } else {
                assert(out[i0 + 1] == before[i0]);
            }
        } else {
            assert(out[q] == e);
        }
    }
}

proof fn lemma_insert_distinct(before: Seq<GroupEntry>, e: GroupEntry, q: int)
    requires
        0 <= q <= before.len(),
        forall|i: int, k: int|
            0 <= i < k < before.len() ==> before[i].display_value@ != before[k].display_value@,
        forall|i: int| 0 <= i < before.len() ==> before[i].display_value@ != e.display_value@,
    ensures
        forall|i: int, k: int|
            0 <= i < k < before.len() + 1 ==> before.insert(q, e)[i].display_value@ != before.insert(q, e)[k].display_value@,
{
    let out = before.insert(q, e);
    assert forall|i: int, k: int| 0 <= i < k < out.len() implies out[i].display_value@
        != out[k].display_value@ by {
        if i != q && k != q {
            let bi = if i < q {
                i
            } else {
                i - 1
            };
            let bk = if k < q {
                k
            } else {
                k - 1
            };
            assert(out[i] == before[bi]);
            assert(out[k] == before[bk]);
        } else if i == q {
            assert(out[k] == before[k - 1]);
        } else {
            assert(out[i] == before[i]);
        }
    }
}

proof fn lemma_insert_ranked(before: Seq<GroupEntry>, e: GroupEntry, q: int)
    requires
        0 <= q <= before.len(),
        forall|i: int| 0 <= i < before.len() ==> before[i].display_value@ != e.display_value@,
        forall|i: int|
            0 <= i < before.len() - 1 ==> ranks_before(
                before[i].file_names@.len(),
                #[trigger] before[i].display_value@,
                before[i + 1].file_names@.len(),
                before[i + 1].display_value@,
            ),
        forall|i: int|
            0 <= i < q ==> ranks_before(
                before[i].file_names@.len(),
                #[trigger] before[i].display_value@,
                e.file_names@.len(),
                e.display_value@,
            ),
        q < before.len() ==> !ranks_before(
            before[q].file_names@.len(),
            before[q].display_value@,
            e.file_names@.len(),
            e.display_value@,
        ),
    ensures
        forall|i: int|
            0 <= i < before.len() ==> ranks_before(
                before.insert(q, e)[i].file_names@.len(),
                #[trigger] before.insert(q, e)[i].display_value@,
                before.insert(q, e)[i + 1].file_names@.len(),
                before.insert(q, e)[i + 1].display_value@,
            ),
{
    let out = before.insert(q, e);
    if q < before.len() {
        lemma_lex_total(before[q].display_value@, e.display_value@);
    }
    assert forall|i: int| 0 <= i < out.len() - 1 implies ranks_before(
        out[i].file_names@.len(),
        #[trigger] out[i].display_value@,
        out[i + 1].file_names@.len(),
        out[i + 1].display_value@,
    ) by {
        if i + 1 < q {
            assert(out[i] == before[i]);
            assert(out[i + 1] == before[i + 1]);
        } else if i + 1 == q {
            assert(out[i] == before[i]);
            assert(out[i + 1] == e);
        } else if i == q {
            assert(out[i] == e);
            assert(out[i + 1] == before[i]);
        } else {
            assert(out[i] == before[i - 1]);
            assert(out[i + 1] == before[i]);
        }
    }
}

pub proof fn lemma_lex_total(a: Seq<char>, b: Seq<char>)
    requires
        a != b,
    ensures
        lex_lt(a, b) || lex_lt(b, a),
    decreases a.len(),
{
    if a.len() > 0 && b.len() > 0 && a[0] == b[0] {
        if a.drop_first() == b.drop_first() {
            assert(a.drop_first().len() == a.len() - 1);
            assert(b.drop_first().len() == b.len() - 1);
            assert(a.len() == b.len());
            assert(a =~= b) by {
                assert forall|i: int| 0 < i < a.len() implies a[i] == b[i] by {
                    assert(a[i] == a.drop_first()[i - 1]);
                    assert(b[i] == b.drop_first()[i - 1]);
                }
            }
        } else {
            lemma_lex_total(a.drop_first(), b.drop_first());
        }
    } else if a.len() == 0 && b.len() == 0 {
        assert(a =~= b);
    }
}

fn lex_less(a: &Vec<char>, b: &Vec<char>) -> (r: bool)
    ensures
        r == lex_lt(a@, b@),
{
    let mut i: usize = 0;
    assert(a@.subrange(0, a.len() as int) =~= a@);
    assert(b@.subrange(0, b.len() as int) =~= b@);
    loop
        invariant
            i <= a.len(),
            i <= b.len(),
            lex_lt(a@, b@) == lex_lt(
                a@.subrange(i as int, a.len() as int),
                b@.subrange(i as int, b.len() as int),
            ),
        decreases a.len() - i,
    {
        if i == a.len() {
            return i < b.len();
        }
        if i == b.len() {
            return false;
        }
        if a[i] != b[i] {
            return a[i] < b[i];
        }
        assert(a@.subrange(i as int, a.len() as int).drop_first() =~= a@.subrange(
            i + 1,
            a.len() as int,
        ));
        assert(b@.subrange(i as int, b.len() as int).drop_first() =~= b@.subrange(
            i + 1,
            b.len() as int,
        ));
        i = i + 1;
    }
}

fn ranks_before_exec(e: &GroupEntry, f: &GroupEntry) -> (r: bool)
    ensures
        r == ranks_before(
            e.file_names@.len(),
            e.display_value@,
            f.file_names@.len(),
            f.display_value@,
        ),
{
    let c1 = e.file_names.len();
    let c2 = f.file_names.len();
    c1 > c2 || (c1 == c2 && lex_less(
        &chars_of(e.display_value.as_str()),
        &chars_of(f.display_value.as_str()),
    ))
}

/// What `f` shows at `addr` under `base`.
pub fn shown_value_of(f: &ParsedFile, addr: u64, base: DisplayBase) -> (r: String)
    ensures
        r@ == shown_value(*f, addr, base),
{
    let raw = match f.get(addr) {
        Some(s) => chars_of(s.as_str()),
        None => Vec::new(),
    };
    string_of(&format_value_chars(&raw, base))
}

fn members_of(files: &Vec<ParsedFile>, shown: &Vec<String>, v: &String, addr: u64, base: DisplayBase) -> (r: Vec<String>)
    requires
        shown.len() == files.len(),
        forall|j: int| 0 <= j < files.len() ==> #[trigger] shown[j]@ == shown_value(files[j], addr, base),
    ensures
        names_view(r@) == members(files@, addr, base, v@),
{
    let mut r: Vec<String> = Vec::new();
    let mut j: usize = 0;
    assert(files@.take(0) =~= Seq::<ParsedFile>::empty());
    assert(names_view(r@) =~= Seq::<Seq<char>>::empty());
    while j < files.len()
        invariant
            j <= files.len() == shown.len(),
            forall|k: int| 0 <= k < files.len() ==> #[trigger] shown[k]@ == shown_value(files[k], addr, base),
            names_view(r@) == members(files@.take(j as int), addr, base, v@),
        decreases files.len() - j,
    {
        assert(files@.take(j + 1).drop_last() =~= files@.take(j as int));
        assert(files@.take(j + 1).last() == files@[j as int]);
        if shown[j] == *v {
            let ghost before = r@;
            r.push(files[j].file_name().clone());
            assert(names_view(r@) =~= names_view(before).push(files@[j as int].name()));
        }
        j = j + 1;
    }
    assert(files@.take(files.len() as int) =~= files@);
    r
}

proof fn lemma_members_nonempty(files: Seq<ParsedFile>, addr: u64, base: DisplayBase, j: int)
    requires
        0 <= j < files.len(),
    ensures
        members(files, addr, base, shown_value(files[j], addr, base)).len() > 0,
    decreases files.len(),
{
    let v = shown_value(files[j], addr, base);
    if j < files.len() - 1 {
        assert(files.drop_last()[j] == files[j]);
        lemma_members_nonempty(files.drop_last(), addr, base, j);
    }
}

/// Groups `files` by the value each shows at `addr` under `base` (empty where a file has no
/// value there), larger groups first and equal sizes by value.
pub fn group_values(files: &Vec<ParsedFile>, addr: u64, base: DisplayBase) -> (r: Vec<GroupEntry>)
    ensures
        is_grouping(r@, files@, addr, base),
{
    // What each file shows.
    let mut shown: Vec<String> = Vec::new();
    let mut j: usize = 0;
    while j < files.len()
        invariant
            j <= files.len(),
            shown.len() == j,
            forall|k: int| 0 <= k < j ==> #[trigger] shown[k]@ == shown_value(files[k], addr, base),
        decreases files.len() - j,
    {
        shown.push(shown_value_of(&files[j], addr, base));
        j = j + 1;
    }
    // The entries, ranked as they are made.
    let mut out: Vec<GroupEntry> = Vec::new();
    let mut j: usize = 0;
    while j < files.len()
        invariant
            j <= files.len() == shown.len(),
            forall|k: int| 0 <= k < files.len() ==> #[trigger] shown[k]@ == shown_value(files[k], addr, base),
            well_ranked(out@, files@, addr, base),
            covers(out@, files@, addr, base, j as int),
        decreases files.len() - j,
    {
        let v = &shown[j];
        let mut seen = false;
        let mut p: usize = 0;
        while p < out.len()
            invariant
                p <= out.len(),
                seen ==> exists|i: int| 0 <= i < out.len() && out[i].display_value@ == v@,
                !seen ==> forall|i: int| 0 <= i < p ==> out[i].display_value@ != v@,
            decreases out.len() - p,
        {
            if out[p].display_value == *v {
                seen = true;
            }
            p = p + 1;
        }
        if !seen {
            let names = members_of(files, &shown, v, addr, base);
            proof {
                lemma_members_nonempty(files@, addr, base, j as int);
            }
            let e = GroupEntry { display_value: v.clone(), file_names: names };
            // The place of `e`: after every entry that ranks before it.
            let mut q: usize = 0;
            while q < out.len() && ranks_before_exec(&out[q], &e)
                invariant
                    q <= out.len(),
                    forall|i: int|
                        0 <= i < q ==> ranks_before(
                            out[i].file_names@.len(),
                            #[trigger] out[i].display_value@,
                            e.file_names@.len(),
                            e.display_value@,
                        ),
                decreases out.len() - q,
            {
                q = q + 1;
            }
            proof {
                assert(forall|i: int| 0 <= i < out.len() ==> #[trigger] out[i].display_value@ != v@);
            }
            let ghost before = out@;
            out.insert(q, e);
            proof {
                lemma_insert_groups(before, e, q as int, files@, addr, base);
                lemma_insert_covers(before, e, q as int, files@, addr, base, j as int);
                lemma_insert_distinct(before, e, q as int);
                lemma_insert_ranked(before, e, q as int);
                assert(well_ranked(out@, files@, addr, base));
            }
        } else {
            proof {
                assert forall|k: int| 0 <= k < j + 1 implies exists|i: int|
                    0 <= i < out.len() && #[trigger] out[i].display_value@ == shown_value(
                        #[trigger] files[k],
                        addr,
                        base,
                    ) by {
                    if k == j {
                        let i0 = choose|i: int| 0 <= i < out.len() && out[i].display_value@ == v@;
                        assert(out[i0].display_value@ == shown_value(files[k], addr, base));
                    }
                }
            }
        }
        j = j + 1;
    }
    out
}

/// The values of the entries of `r`, in order.
pub open spec fn values_of(r: Seq<GroupEntry>) -> Seq<Seq<char>> {
    r.map_values(|e: GroupEntry| e.display_value@)
}

/// The number of file names over all entries of `r`.
pub open spec fn total_members(r: Seq<GroupEntry>) -> nat
    decreases r.len(),
{
    if r.len() == 0 {
        0
    } else {
        total_members(r.drop_last()) + r.last().file_names@.len()
    }
}

/// The sizes of the groups of the values `vs`, added up.
pub open spec fn sum_members(files: Seq<ParsedFile>, addr: u64, base: DisplayBase, vs: Seq<Seq<char>>) -> nat
    decreases vs.len(),
{
    if vs.len() == 0 {
        0
    } else {
        sum_members(files, addr, base, vs.drop_last()) + members(files, addr, base, vs.last()).len()
    }
}

/// How many of `vs` equal `x`.
pub open spec fn count_equal(vs: Seq<Seq<char>>, x: Seq<char>) -> nat
    decreases vs.len(),
{
    if vs.len() == 0 {
        0
    } else {
        count_equal(vs.drop_last(), x) + if vs.last() == x {
            1nat
        } else {
            0nat
        }
    }
}

proof fn lemma_count_equal_once(vs: Seq<Seq<char>>, x: Seq<char>)
    requires
        vs.no_duplicates(),
    ensures
        count_equal(vs, x) == if vs.contains(x) {
            1nat
        } else {
            0nat
        },
    decreases vs.len(),
{
    if vs.len() > 0 {
        let init = vs.drop_last();
        assert(init.no_duplicates());
        lemma_count_equal_once(init, x);
        if vs.last() == x {
            assert(!init.contains(x)) by {
                if init.contains(x) {
                    let i = choose|i: int| 0 <= i < init.len() && #[trigger] init[i] == x;
                    assert(vs[i] == vs[vs.len() - 1]);
                }
            }
            assert(vs.contains(x)) by {
                assert(vs[vs.len() - 1] == x);
            }
        } else {
            assert(vs.contains(x) == init.contains(x)) by {
                if vs.contains(x) {
                    let i = choose|i: int| 0 <= i < vs.len() && #[trigger] vs[i] == x;
                    assert(init[i] == x);
                }
                if init.contains(x) {
                    let i = choose|i: int| 0 <= i < init.len() && #[trigger] init[i] == x;
                    assert(vs[i] == x);
                }
            }
        }
    }
}

proof fn lemma_sum_members_step(files: Seq<ParsedFile>, addr: u64, base: DisplayBase, vs: Seq<Seq<char>>)
    requires
        files.len() > 0,
    ensures
        sum_members(files, addr, base, vs) == sum_members(files.drop_last(), addr, base, vs)
            + count_equal(vs, shown_value(files.last(), addr, base)),
    decreases vs.len(),
{
    if vs.len() > 0 {
        lemma_sum_members_step(files, addr, base, vs.drop_last());
    }
}

proof fn lemma_sum_members_total(files: Seq<ParsedFile>, addr: u64, base: DisplayBase, vs: Seq<Seq<char>>)
    requires
        vs.no_duplicates(),
        forall|k: int| 0 <= k < files.len() ==> vs.contains(#[trigger] shown_value(files[k], addr, base)),
    ensures
        sum_members(files, addr, base, vs) == files.len(),
    decreases files.len(),
{
    if files.len() == 0 {
        assert(files =~= Seq::<ParsedFile>::empty());
        lemma_sum_members_empty(addr, base, vs);
    } else {
        let init = files.drop_last();
        assert forall|k: int| 0 <= k < init.len() implies vs.contains(#[trigger] shown_value(init[k], addr, base)) by {
            assert(init[k] == files[k]);
        }
        lemma_sum_members_total(init, addr, base, vs);
        lemma_sum_members_step(files, addr, base, vs);
        assert(vs.contains(shown_value(files[files.len() - 1], addr, base)));
        lemma_count_equal_once(vs, shown_value(files.last(), addr, base));
        assert(files.len() == init.len() + 1);
    }
}

proof fn lemma_sum_members_empty(addr: u64, base: DisplayBase, vs: Seq<Seq<char>>)
    ensures
        sum_members(Seq::<ParsedFile>::empty(), addr, base, vs) == 0,
    decreases vs.len(),
{
    if vs.len() > 0 {
        lemma_sum_members_empty(addr, base, vs.drop_last());
    }
}

proof fn lemma_total_is_sum(r: Seq<GroupEntry>, files: Seq<ParsedFile>, addr: u64, base: DisplayBase)
    requires
        forall|i: int| 0 <= i < r.len() ==> is_group_of(#[trigger] r[i], files, addr, base),
    ensures
        total_members(r) == sum_members(files, addr, base, values_of(r)),
    decreases r.len(),
{
    if r.len() > 0 {
        let init = r.drop_last();
        assert forall|i: int| 0 <= i < init.len() implies is_group_of(#[trigger] init[i], files, addr, base) by {
            assert(init[i] == r[i]);
        }
        lemma_total_is_sum(init, files, addr, base);
        assert(values_of(r).drop_last() =~= values_of(init));
        assert(is_group_of(r[r.len() - 1], files, addr, base));
        let e = r.last();
        assert(names_view(e.file_names@).len() == e.file_names@.len());
    }
}

/// Every file is in exactly one group: the group sizes add up to the number of files, so the
/// shares of all groups make a whole.
pub proof fn lemma_groups_partition_files(
    r: Seq<GroupEntry>,
    files: Seq<ParsedFile>,
    addr: u64,
    base: DisplayBase,
)
    requires
        is_grouping(r, files, addr, base),
    ensures
        total_members(r) == files.len(),
{
    let vs = values_of(r);
    assert(vs.no_duplicates()) by {
        assert forall|i: int, k: int| 0 <= i < vs.len() && 0 <= k < vs.len() && i != k implies vs[i] != vs[k] by {
            if i < k {
                assert(r[i].display_value@ != r[k].display_value@);
            } else {
                assert(r[k].display_value@ != r[i].display_value@);
            }
        }
    }
    assert forall|k: int| 0 <= k < files.len() implies vs.contains(#[trigger] shown_value(files[k], addr, base)) by {
        let i = choose|i: int|
            0 <= i < r.len() && #[trigger] r[i].display_value@ == shown_value(files[k], addr, base);
        assert(vs[i] == shown_value(files[k], addr, base));
    }
    lemma_total_is_sum(r, files, addr, base);
    lemma_sum_members_total(files, addr, base, vs);
}

} // verus!
