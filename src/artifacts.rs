//! The artifact table: its rows, selection, sort order and removal lifecycle.
use crate::actions::AppAction;
use crate::models::{FolderInfo, ProcessStatus};
use vstd::multiset::Multiset;
use vstd::prelude::*;
use vstd::string::*;

verus! {

/// The column a sort goes by.
#[derive(Clone, Copy, Debug, PartialEq, Eq, Structural)]
pub enum SortColumn {
    Path,
    Size,
    LastModified,
}

/// `a` comes before `b` in lexicographic order of characters.
pub open spec fn chars_lt(a: Seq<char>, b: Seq<char>) -> bool {
    exists|k: int|
        0 <= k <= a.len() && k <= b.len() && a.subrange(0, k) == b.subrange(0, k) && (if k
            == a.len() {
            k < b.len()
        } else {
            k < b.len() && a[k] < b[k]
        })
}

/// An unknown measurement orders before every known one.
pub open spec fn opt_lt(a: Option<u64>, b: Option<u64>) -> bool {
    match (a, b) {
        (None, Some(_)) => true,
        (Some(x), Some(y)) => x < y,
        _ => false,
    }
}

pub open spec fn key_lt(col: SortColumn, a: FolderInfo, b: FolderInfo) -> bool {
    match col {
        SortColumn::Path => chars_lt(a.path@, b.path@),
        SortColumn::Size => opt_lt(a.size, b.size),
        SortColumn::LastModified => opt_lt(a.last_modified, b.last_modified),
    }
}

pub open spec fn key_eq(col: SortColumn, a: FolderInfo, b: FolderInfo) -> bool {
    match col {
        SortColumn::Path => a.path@ == b.path@,
        SortColumn::Size => a.size == b.size,
        SortColumn::LastModified => a.last_modified == b.last_modified,
    }
}

pub open spec fn key_le(col: SortColumn, a: FolderInfo, b: FolderInfo) -> bool {
    key_lt(col, a, b) || key_eq(col, a, b)
}

/// The rows whose key of `col` equals that of `e`.
pub open spec fn same_key(col: SortColumn, e: FolderInfo) -> spec_fn(FolderInfo) -> bool {
    |x: FolderInfo| key_eq(col, x, e)
}

/// Rows with equal keys of `col` stand in `out` in the order they have in `inp`.
pub open spec fn ties_kept(out: Seq<FolderInfo>, inp: Seq<FolderInfo>, col: SortColumn) -> bool {
    forall|e: FolderInfo| #[trigger] out.filter(same_key(col, e)) == inp.filter(same_key(col, e))
}

/// `a` may stand before `b` when sorting by `col`, ascending or descending.
pub open spec fn in_order(col: SortColumn, descending: bool, a: FolderInfo, b: FolderInfo) -> bool {
    if descending {
        key_le(col, b, a)
    } else {
        key_le(col, a, b)
    }
}

/// `y` must stand before `x` when sorting by `col`, ascending or descending.
pub open spec fn strictly_before(col: SortColumn, descending: bool, y: FolderInfo, x: FolderInfo) -> bool {
    if descending {
        key_lt(col, x, y)
    } else {
        key_lt(col, y, x)
    }
}

/// Each row is in order with the next.
pub open spec fn sorted_by(rows: Seq<FolderInfo>, col: SortColumn, descending: bool) -> bool {
    forall|i: int| 0 <= i < rows.len() - 1 ==> #[trigger] in_order(col, descending, rows[i], rows[i + 1])
}

fn cmp_chars(a: &String, b: &String) -> (r: i8)
    ensures
        r < 0 ==> chars_lt(a@, b@),
        r == 0 ==> a@ == b@,
        r > 0 ==> chars_lt(b@, a@),
{
    let x = a.as_str();
    let y = b.as_str();
    let xl = x.unicode_len();
    let yl = y.unicode_len();
    let mut i: usize = 0;
    while i < xl && i < yl
        invariant
            x@ == a@,
            y@ == b@,
            xl == a@.len(),
            yl == b@.len(),
            i <= xl,
            i <= yl,
            a@.subrange(0, i as int) == b@.subrange(0, i as int),
        decreases xl - i,
    {
        let c = x.get_char(i);
        let d = y.get_char(i);
        if c < d {
            assert(chars_lt(a@, b@)) by {
                assert(a@.subrange(0, i as int) == b@.subrange(0, i as int));
            }
            return -1;
        }
        if c > d {
            assert(chars_lt(b@, a@)) by {
                assert(b@.subrange(0, i as int) == a@.subrange(0, i as int));
            }
            return 1;
        }
        assert(a@.subrange(0, i + 1) =~= a@.subrange(0, i as int).push(c));
        assert(b@.subrange(0, i + 1) =~= b@.subrange(0, i as int).push(d));
        i += 1;
    }
    if xl < yl {
        assert(chars_lt(a@, b@)) by {
            assert(a@.subrange(0, i as int) =~= a@);
        }
        -1
    } else if yl < xl {
        assert(chars_lt(b@, a@)) by {
            assert(b@.subrange(0, i as int) =~= b@);
        }
        1
    } else {
        assert(a@ =~= a@.subrange(0, i as int));
        assert(b@ =~= b@.subrange(0, i as int));
        0
    }
}

fn cmp_opt(a: Option<u64>, b: Option<u64>) -> (r: i8)
    ensures
        r < 0 ==> opt_lt(a, b),
        r == 0 ==> a == b,
        r > 0 ==> opt_lt(b, a),
{
    match (a, b) {
        (None, None) => 0,
        (None, Some(_)) => -1,
        (Some(_), None) => 1,
        (Some(x), Some(y)) => if x < y {
            -1
        } else if x > y {
            1
        } else {
            0
        },
    }
}

/// Compares two rows by the key of `col`.
fn cmp_rows(col: SortColumn, a: &FolderInfo, b: &FolderInfo) -> (r: i8)
    ensures
        r < 0 ==> key_lt(col, *a, *b),
        r == 0 ==> key_eq(col, *a, *b),
        r > 0 ==> key_lt(col, *b, *a),
{
    match col {
        SortColumn::Path => cmp_chars(&a.path, &b.path),
        SortColumn::Size => cmp_opt(a.size, b.size),
        SortColumn::LastModified => cmp_opt(a.last_modified, b.last_modified),
    }
}

proof fn lemma_filter_single(x: FolderInfo, pred: spec_fn(FolderInfo) -> bool)
    ensures
        seq![x].filter(pred) == (if pred(x) {
            seq![x]
        } else {
            Seq::<FolderInfo>::empty()
        }),
{
    reveal(Seq::filter);
    assert(seq![x].drop_last() =~= Seq::<FolderInfo>::empty());
    assert(Seq::<FolderInfo>::empty().filter(pred) =~= Seq::<FolderInfo>::empty());
    assert(seq![x].last() == x);
    assert(Seq::<FolderInfo>::empty().push(x) =~= seq![x]);
}

/// A sequence none of whose elements passes keeps nothing.
proof fn lemma_filter_none(s: Seq<FolderInfo>, pred: spec_fn(FolderInfo) -> bool)
    requires
        forall|i: int| 0 <= i < s.len() ==> !pred(#[trigger] s[i]),
    ensures
        s.filter(pred) == Seq::<FolderInfo>::empty(),
    decreases s.len(),
{
    reveal(Seq::filter);
    if s.len() > 0 {
        lemma_filter_none(s.drop_last(), pred);
        assert(!pred(s[s.len() - 1]));
    } else {
        assert(s.filter(pred) =~= Seq::<FolderInfo>::empty());
    }
}

/// What passes a filter comes from the sequence filtered.
proof fn lemma_filter_member(s: Seq<FolderInfo>, pred: spec_fn(FolderInfo) -> bool, i: int)
    requires
        0 <= i < s.filter(pred).len(),
    ensures
        s.contains(s.filter(pred)[i]),
    decreases s.len(),
{
    reveal(Seq::filter);
    if s.len() > 0 {
        let sub = s.drop_last().filter(pred);
        if i < sub.len() {
            lemma_filter_member(s.drop_last(), pred, i);
            let j = choose|j: int| 0 <= j < s.drop_last().len() && s.drop_last()[j] == sub[i];
            assert(s[j] == sub[i]);
        } else {
            assert(s[s.len() - 1] == s.filter(pred)[i]);
        }
    }
}

/// A strict precedence is never between equal keys.
proof fn lemma_lt_not_eq(col: SortColumn, a: FolderInfo, b: FolderInfo)
    requires
        key_lt(col, a, b),
    ensures
        !key_eq(col, a, b),
{
    if col == SortColumn::Path && a.path@ == b.path@ {
        let k = choose|k: int|
            0 <= k <= a.path@.len() && k <= b.path@.len() && a.path@.subrange(0, k)
                == b.path@.subrange(0, k) && (if k == a.path@.len() {
                k < b.path@.len()
            } else {
                k < b.path@.len() && a.path@[k] < b.path@[k]
            });
    }
}

/// Inserting `x` before its equals and after all that strictly precede it
/// keeps the order among equal keys, counting `x` as the last of the rest.
proof fn lemma_insert_keeps_ties(
    old_out: Seq<FolderInfo>,
    new_out: Seq<FolderInfo>,
    rest: Seq<FolderInfo>,
    before: Seq<FolderInfo>,
    x: FolderInfo,
    p: int,
    col: SortColumn,
    descending: bool,
)
    requires
        0 <= p <= old_out.len(),
        new_out == old_out.insert(p, x),
        before == rest.push(x),
        forall|j: int| 0 <= j < p ==> #[trigger] strictly_before(col, descending, old_out[j], x),
    ensures
        forall|e: FolderInfo|
            #[trigger] rest.filter(same_key(col, e)) + new_out.filter(same_key(col, e)) == before.filter(
                same_key(col, e),
            ) + old_out.filter(same_key(col, e)),
{
    broadcast use Seq::filter_distributes_over_add;

    assert forall|e: FolderInfo|
        #[trigger] rest.filter(same_key(col, e)) + new_out.filter(same_key(col, e)) == before.filter(
            same_key(col, e),
        ) + old_out.filter(same_key(col, e)) by {
        let pred = same_key(col, e);
        let pre = old_out.subrange(0, p);
        let post = old_out.subrange(p, old_out.len() as int);
        assert(old_out =~= pre + post);
        assert(new_out =~= pre + seq![x] + post);
        assert(before =~= rest + seq![x]);
        lemma_filter_single(x, pred);
        if pred(x) {
            assert forall|j: int| 0 <= j < pre.len() implies !pred(#[trigger] pre[j]) by {
                assert(pre[j] == old_out[j]);
                assert(strictly_before(col, descending, old_out[j], x));
                if descending {
                    assert(key_lt(col, x, old_out[j]));
                    lemma_lt_not_eq(col, x, old_out[j]);
                } else {
                    assert(key_lt(col, old_out[j], x));
                    lemma_lt_not_eq(col, old_out[j], x);
                }
            }
            lemma_filter_none(pre, pred);
            assert(rest.filter(pred) + new_out.filter(pred) =~= before.filter(pred) + old_out.filter(pred));
        } else {
            assert(rest.filter(pred) + new_out.filter(pred) =~= before.filter(pred) + old_out.filter(pred));
        }
    }
}

/// `y` strictly precedes `x` in the order of `col` and `descending`.
fn goes_before(col: SortColumn, descending: bool, y: &FolderInfo, x: &FolderInfo) -> (r: bool)
    ensures
        r ==> if descending {
            key_lt(col, *x, *y)
        } else {
            key_lt(col, *y, *x)
        },
        !r ==> if descending {
            key_le(col, *y, *x)
        } else {
            key_le(col, *x, *y)
        },
{
    if descending {
        cmp_rows(col, x, y) < 0
    } else {
        cmp_rows(col, y, x) < 0
    }
}

/// Sorts `rows` by `col`, ascending or descending; rows with equal keys
/// keep their order.
pub fn sort_rows(rows: Vec<FolderInfo>, col: SortColumn, descending: bool) -> (r: Vec<FolderInfo>)
    ensures
        r@.to_multiset() == rows@.to_multiset(),
        sorted_by(r@, col, descending),
        ties_kept(r@, rows@, col),
{
    let mut rest = rows;
    let mut out: Vec<FolderInfo> = Vec::new();
    proof {
        broadcast use vstd::seq_lib::group_to_multiset_ensures, vstd::multiset::group_multiset_axioms;

        assert(out@.to_multiset() =~= Multiset::empty());
        assert(rest@.to_multiset().add(out@.to_multiset()) =~= rows@.to_multiset());
        assert forall|e: FolderInfo| #[trigger] rows@.filter(same_key(col, e)) == rest@.filter(same_key(col, e)) + out@.filter(same_key(col, e)) by {
            lemma_filter_none(out@, same_key(col, e));
            assert(rest@.filter(same_key(col, e)) + out@.filter(same_key(col, e)) =~= rest@.filter(same_key(col, e)));
        }
    }
    while rest.len() > 0
        invariant
            rest@.to_multiset().add(out@.to_multiset()) == rows@.to_multiset(),
            sorted_by(out@, col, descending),
            forall|e: FolderInfo|
                #[trigger] rows@.filter(same_key(col, e)) == rest@.filter(same_key(col, e))
                    + out@.filter(same_key(col, e)),
        decreases rest@.len(),
    {
        let ghost before = rest@;
        let x = rest.pop().unwrap();
        proof {
            broadcast use vstd::seq_lib::group_to_multiset_ensures;

            assert(before =~= rest@.push(x));
        }
        let mut p: usize = 0;
        loop
            invariant
                p <= out@.len(),
                sorted_by(out@, col, descending),
                forall|j: int| 0 <= j < p ==> #[trigger] strictly_before(col, descending, out@[j], x),
            ensures
                p <= out@.len(),
                sorted_by(out@, col, descending),
                forall|j: int| 0 <= j < p ==> #[trigger] strictly_before(col, descending, out@[j], x),
                p < out@.len() ==> if descending {
                    key_le(col, out@[p as int], x)
                } else {
                    key_le(col, x, out@[p as int])
                },
            decreases out@.len() - p,
        {
            if p == out.len() {
                break;
            }
            if !goes_before(col, descending, &out[p], &x) {
                break;
            }
            p += 1;
        }
        let ghost old_out = out@;
        out.insert(p, x);
        proof {
            broadcast use vstd::seq_lib::group_to_multiset_ensures, vstd::multiset::group_multiset_axioms;

            vstd::seq_lib::to_multiset_insert(old_out, p as int, x);
            lemma_insert_keeps_ties(old_out, out@, rest@, before, x, p as int, col, descending);
            assert(rest@.to_multiset().add(out@.to_multiset()) =~= rows@.to_multiset());
            assert forall|i: int| 0 <= i < out@.len() - 1 implies #[trigger] in_order(
                col,
                descending,
                out@[i],
                out@[i + 1],
            ) by {
                if i + 1 < p {
                    assert(out@[i] == old_out[i] && out@[i + 1] == old_out[i + 1]);
                    assert(in_order(col, descending, old_out[i], old_out[i + 1]));
                } else if i + 1 == p {
                    assert(strictly_before(col, descending, old_out[i], x));
                } else if i == p {
                } else {
                    assert(out@[i] == old_out[i - 1] && out@[i + 1] == old_out[i]);
                    let k = i - 1;
                    assert(in_order(col, descending, old_out[k], old_out[k + 1]));
                    assert(k + 1 == i);
                }
            }
        }
    }
    proof {
        broadcast use vstd::seq_lib::group_to_multiset_ensures, vstd::multiset::group_multiset_axioms;

        assert(rest@ =~= Seq::<FolderInfo>::empty());
        assert(rest@.to_multiset() =~= Multiset::empty());
        assert(out@.to_multiset() =~= rows@.to_multiset());
        assert forall|e: FolderInfo| #[trigger] out@.filter(same_key(col, e)) == rows@.filter(same_key(col, e)) by {
            lemma_filter_none(rest@, same_key(col, e));
            assert(rest@.filter(same_key(col, e)) + out@.filter(same_key(col, e)) =~= out@.filter(same_key(col, e)));
        }
    }
    out
}

/// The row with its removal status replaced.
pub open spec fn with_status(r: FolderInfo, s: ProcessStatus) -> FolderInfo {
    FolderInfo { id: r.id, path: r.path, removal_status: s, size: r.size, last_modified: r.last_modified }
}

/// The row after a finished deletion with outcome `s` is reported for `id`:
/// only a row of that id that is in progress takes a terminal status.
pub open spec fn finished(r: FolderInfo, id: u128, s: ProcessStatus) -> FolderInfo {
    if r.id == id && ProcessStatus::may_finish(r.removal_status, s) {
        with_status(r, s)
    } else {
        r
    }
}

/// The row after a size measurement for `id`; a known size is kept.
pub open spec fn sized(r: FolderInfo, id: u128, bytes: u64) -> FolderInfo {
    if r.id == id && r.size is None {
        FolderInfo { size: Some(bytes), ..r }
    } else {
        r
    }
}

/// The row after an age measurement for `id`; a known age is kept.
pub open spec fn aged(r: FolderInfo, id: u128, secs: u64) -> FolderInfo {
    if r.id == id && r.last_modified is None {
        FolderInfo { last_modified: Some(secs), ..r }
    } else {
        r
    }
}

/// The table of discovered artifact directories.
pub struct Artifacts {
    pub rows: Vec<FolderInfo>,
    /// The highlighted row, by position.
    pub selected: Option<usize>,
    pub path_order_descending: bool,
    pub last_modified_order_descending: bool,
    pub size_order_descending: bool,
}

impl Artifacts {
    /// The selection, if any, names a row.
    pub open spec fn wf(&self) -> bool {
        match self.selected {
            Some(i) => i < self.rows@.len(),
            None => true,
        }
    }

    /// A removal request now would start a deletion: the selected row is pending.
    pub open spec fn removable(&self) -> bool {
        match self.selected {
            Some(i) => i < self.rows@.len() && self.rows@[i as int].removal_status
                == ProcessStatus::Pending,
            None => false,
        }
    }

    pub open spec fn descending_flag(&self, col: SortColumn) -> bool {
        match col {
            SortColumn::Path => self.path_order_descending,
            SortColumn::Size => self.size_order_descending,
            SortColumn::LastModified => self.last_modified_order_descending,
        }
    }

    /// Everything but the rows and the selection is as in `other`.
    pub open spec fn same_flags(&self, other: &Artifacts) -> bool {
        &&& self.path_order_descending == other.path_order_descending
        &&& self.last_modified_order_descending == other.last_modified_order_descending
        &&& self.size_order_descending == other.size_order_descending
    }

    pub fn new() -> (r: Artifacts)
        ensures
            r.rows@.len() == 0,
            r.selected is None,
            !r.path_order_descending,
            !r.last_modified_order_descending,
            !r.size_order_descending,
            r.wf(),
    {
        Artifacts {
            rows: Vec::new(),
            selected: None,
            path_order_descending: false,
            last_modified_order_descending: false,
            size_order_descending: false,
        }
    }

    /// Moves the highlight one row down, stopping at the last row; with no
    /// highlight, the first row is taken.
    fn select_next(&mut self)
        ensures
            final(self).wf(),
            final(self).rows == old(self).rows,
            final(self).same_flags(old(self)),
            final(self).selected == (if old(self).rows@.len() == 0 {
                None
            } else {
                match old(self).selected {
                    None => Some(0usize),
                    Some(i) => Some(
                        if i + 1 < old(self).rows@.len() {
                            (i + 1) as usize
                        } else {
                            (old(self).rows@.len() - 1) as usize
                        },
                    ),
                }
            }),
    {
        let n = self.rows.len();
        if n == 0 {
            self.selected = None;
        } else {
            match self.selected {
                None => {
                    self.selected = Some(0);
                },
                Some(i) => {
                    if i < n - 1 {
                        self.selected = Some(i + 1);
                    } else {
                        self.selected = Some(n - 1);
                    }
                },
            }
        }
    }

    /// Moves the highlight one row up, stopping at the first row; with no
    /// highlight, the last row is taken.
    fn select_previous(&mut self)
        ensures
            final(self).wf(),
            final(self).rows == old(self).rows,
            final(self).same_flags(old(self)),
            final(self).selected == (if old(self).rows@.len() == 0 {
                None
            } else {
                match old(self).selected {
                    None => Some((old(self).rows@.len() - 1) as usize),
                    Some(i) => Some(
                        if i == 0 {
                            0usize
                        } else if i - 1 < old(self).rows@.len() {
                            (i - 1) as usize
                        } else {
                            (old(self).rows@.len() - 1) as usize
                        },
                    ),
                }
            }),
    {
        let n = self.rows.len();
        if n == 0 {
            self.selected = None;
        } else {
            match self.selected {
                None => {
                    self.selected = Some(n - 1);
                },
                Some(i) => {
                    if i > 0 && i - 1 < n {
                        self.selected = Some(i - 1);
                    } else if i > 0 {
                        self.selected = Some(n - 1);
                    }
                },
            }
        }
    }

    /// Flips the direction of `col` and sorts all rows by it in the new direction.
    fn sort_by(&mut self, col: SortColumn)
        ensures
            old(self).wf() ==> final(self).wf(),
            final(self).selected == old(self).selected,
            final(self).descending_flag(col) == !old(self).descending_flag(col),
            forall|c: SortColumn| c != col ==> final(self).descending_flag(c) == old(self).descending_flag(c),
            final(self).rows@.to_multiset() == old(self).rows@.to_multiset(),
            sorted_by(final(self).rows@, col, final(self).descending_flag(col)),
            ties_kept(final(self).rows@, old(self).rows@, col),
    {
        let descending = match col {
            SortColumn::Path => {
                self.path_order_descending = !self.path_order_descending;
                self.path_order_descending
            },
            SortColumn::Size => {
                self.size_order_descending = !self.size_order_descending;
                self.size_order_descending
            },
            SortColumn::LastModified => {
                self.last_modified_order_descending = !self.last_modified_order_descending;
                self.last_modified_order_descending
            },
        };
        let mut rows: Vec<FolderInfo> = Vec::new();
        std::mem::swap(&mut rows, &mut self.rows);
        self.rows = sort_rows(rows, col, descending);
        proof {
            broadcast use vstd::seq_lib::group_to_multiset_ensures;

            assert(self.rows@.len() == old(self).rows@.len()) by {
                assert(self.rows@.to_multiset().len() == old(self).rows@.to_multiset().len());
            }
        }
    }

    pub fn sort_by_path(&mut self)
        ensures
            old(self).wf() ==> final(self).wf(),
            final(self).selected == old(self).selected,
            final(self).path_order_descending == !old(self).path_order_descending,
            final(self).size_order_descending == old(self).size_order_descending,
            final(self).last_modified_order_descending == old(self).last_modified_order_descending,
            final(self).rows@.to_multiset() == old(self).rows@.to_multiset(),
            sorted_by(final(self).rows@, SortColumn::Path, final(self).path_order_descending),
            ties_kept(final(self).rows@, old(self).rows@, SortColumn::Path),
    {
        self.sort_by(SortColumn::Path);
        assert(old(self).descending_flag(SortColumn::Size) == final(self).descending_flag(SortColumn::Size));
        assert(old(self).descending_flag(SortColumn::LastModified) == final(self).descending_flag(SortColumn::LastModified));
    }

    pub fn sort_by_size(&mut self)
        ensures
            old(self).wf() ==> final(self).wf(),
            final(self).selected == old(self).selected,
            final(self).size_order_descending == !old(self).size_order_descending,
            final(self).path_order_descending == old(self).path_order_descending,
            final(self).last_modified_order_descending == old(self).last_modified_order_descending,
            final(self).rows@.to_multiset() == old(self).rows@.to_multiset(),
            sorted_by(final(self).rows@, SortColumn::Size, final(self).size_order_descending),
            ties_kept(final(self).rows@, old(self).rows@, SortColumn::Size),
    {
        self.sort_by(SortColumn::Size);
        assert(old(self).descending_flag(SortColumn::Path) == final(self).descending_flag(SortColumn::Path));
        assert(old(self).descending_flag(SortColumn::LastModified) == final(self).descending_flag(SortColumn::LastModified));
    }

    pub fn sort_by_last_modified(&mut self)
        ensures
            old(self).wf() ==> final(self).wf(),
            final(self).selected == old(self).selected,
            final(self).last_modified_order_descending == !old(self).last_modified_order_descending,
            final(self).path_order_descending == old(self).path_order_descending,
            final(self).size_order_descending == old(self).size_order_descending,
            final(self).rows@.to_multiset() == old(self).rows@.to_multiset(),
            sorted_by(
                final(self).rows@,
                SortColumn::LastModified,
                final(self).last_modified_order_descending,
            ),
            ties_kept(final(self).rows@, old(self).rows@, SortColumn::LastModified),
    {
        self.sort_by(SortColumn::LastModified);
        assert(old(self).descending_flag(SortColumn::Path) == final(self).descending_flag(SortColumn::Path));
        assert(old(self).descending_flag(SortColumn::Size) == final(self).descending_flag(SortColumn::Size));
    }

    fn insert_row(&mut self, row: FolderInfo)
        ensures
            old(self).wf() ==> final(self).wf(),
            final(self).rows@ == old(self).rows@.push(row),
            final(self).selected == old(self).selected,
            final(self).same_flags(old(self)),
    {
        self.rows.push(row);
    }
}

impl Artifacts {
    /// Marks the selected row in progress when it is pending, and names the
    /// directory to delete; any other state is left as it is.
    fn remove_path(&mut self) -> (r: Option<AppAction>)
        ensures
            old(self).wf() ==> final(self).wf(),
            final(self).selected == old(self).selected,
            final(self).same_flags(old(self)),
            old(self).removable() ==> {
                let i = old(self).selected.unwrap() as int;
                let row = old(self).rows@[i];
                &&& final(self).rows@ == old(self).rows@.update(
                    i,
                    with_status(row, ProcessStatus::InProgress),
                )
                &&& r matches Some(AppAction::ArtifactsDeletePath { id, path }) && id == row.id
                    && path@ == row.path@
            },
            !old(self).removable() ==> final(self).rows == old(self).rows && r is None,
    {
        match self.selected {
            Some(i) => {
                if i >= self.rows.len() || self.rows[i].removal_status != ProcessStatus::Pending {
                    return None;
                }
                let id = self.rows[i].id;
                let path = self.rows[i].path.clone();
                self.rows[i].removal_status = ProcessStatus::InProgress;
                Some(AppAction::ArtifactsDeletePath { id, path })
            },
            None => None,
        }
    }

    /// Applies a finished deletion to the rows of `id` that are in progress.
    fn update_removal_status(&mut self, id: u128, new_status: ProcessStatus)
        ensures
            old(self).wf() ==> final(self).wf(),
            final(self).selected == old(self).selected,
            final(self).same_flags(old(self)),
            final(self).rows@ == old(self).rows@.map_values(|r: FolderInfo| finished(r, id, new_status)),
    {
        let ghost before = self.rows@;
        let mut i: usize = 0;
        while i < self.rows.len()
            invariant
                self.rows@.len() == before.len(),
                i <= before.len(),
                forall|k: int| 0 <= k < i ==> self.rows@[k] == finished(before[k], id, new_status),
                forall|k: int| i <= k < before.len() ==> self.rows@[k] == before[k],
                old(self).wf() ==> self.wf(),
                self.selected == old(self).selected,
                self.same_flags(old(self)),
            decreases before.len() - i,
        {
            if self.rows[i].id == id && self.rows[i].removal_status == ProcessStatus::InProgress && (
            new_status == ProcessStatus::Completed || new_status == ProcessStatus::Failed) {
                self.rows[i].removal_status = new_status;
            }
            i += 1;
        }
        assert(self.rows@ =~= before.map_values(|r: FolderInfo| finished(r, id, new_status)));
    }

    /// Records a size for the rows of `id` whose size is still unknown.
    fn set_size(&mut self, id: u128, bytes: u64)
        ensures
            old(self).wf() ==> final(self).wf(),
            final(self).selected == old(self).selected,
            final(self).same_flags(old(self)),
            final(self).rows@ == old(self).rows@.map_values(|r: FolderInfo| sized(r, id, bytes)),
    {
        let ghost before = self.rows@;
        let mut i: usize = 0;
        while i < self.rows.len()
            invariant
                self.rows@.len() == before.len(),
                i <= before.len(),
                forall|k: int| 0 <= k < i ==> self.rows@[k] == sized(before[k], id, bytes),
                forall|k: int| i <= k < before.len() ==> self.rows@[k] == before[k],
                old(self).wf() ==> self.wf(),
                self.selected == old(self).selected,
                self.same_flags(old(self)),
            decreases before.len() - i,
        {
            if self.rows[i].id == id {
                self.rows[i].set_size(bytes);
            }
            i += 1;
        }
        assert(self.rows@ =~= before.map_values(|r: FolderInfo| sized(r, id, bytes)));
    }

    /// Records an age for the rows of `id` whose age is still unknown.
    fn set_last_modified(&mut self, id: u128, secs: u64)
        ensures
            old(self).wf() ==> final(self).wf(),
            final(self).selected == old(self).selected,
            final(self).same_flags(old(self)),
            final(self).rows@ == old(self).rows@.map_values(|r: FolderInfo| aged(r, id, secs)),
    {
        let ghost before = self.rows@;
        let mut i: usize = 0;
        while i < self.rows.len()
            invariant
                self.rows@.len() == before.len(),
                i <= before.len(),
                forall|k: int| 0 <= k < i ==> self.rows@[k] == aged(before[k], id, secs),
                forall|k: int| i <= k < before.len() ==> self.rows@[k] == before[k],
                old(self).wf() ==> self.wf(),
                self.selected == old(self).selected,
                self.same_flags(old(self)),
            decreases before.len() - i,
        {
            if self.rows[i].id == id {
                self.rows[i].set_last_modified(secs);
            }
            i += 1;
        }
        assert(self.rows@ =~= before.map_values(|r: FolderInfo| aged(r, id, secs)));
    }
}

impl Artifacts {
    /// Applies one action to the table and names the follow-up: the
    /// deletion to start after a removal request that took effect, and a
    /// redraw otherwise. Actions that are not the table's change nothing.
    pub fn perform(&mut self, action: AppAction) -> (r: Option<AppAction>)
        ensures
            old(self).wf() ==> final(self).wf(),
            performed(*old(self), *final(self), action, r),
    {
        match action {
            AppAction::ArtifactsSelectPreviousRow => {
                self.select_previous();
            },
            AppAction::ArtifactsSelectNextRow => {
                self.select_next();
            },
            AppAction::ArtifactsInsertRow(row) => {
                self.insert_row(row);
            },
            AppAction::ArtifactsRemoveRow => {
                let next = self.remove_path();
                if next.is_some() {
                    return next;
                }
            },
            AppAction::ArtifactsUpdateStatus { id, status } => {
                self.update_removal_status(id, status);
            },
            AppAction::ArtifactsSetSize { id, bytes } => {
                self.set_size(id, bytes);
            },
            AppAction::ArtifactsSetLastModified { id, secs } => {
                self.set_last_modified(id, secs);
            },
            AppAction::ArtifactsSortByPath => {
                self.sort_by_path();
            },
            AppAction::ArtifactsSortByLastMod => {
                self.sort_by_last_modified();
            },
            AppAction::ArtifactsSortBySize => {
                self.sort_by_size();
            },
            _ => {},
        }
        Some(AppAction::Render)
    }
}

/// What applying `action` to the table `before` leaves (`after`) and
/// returns as the follow-up (`next`).
pub open spec fn performed(
    before: Artifacts,
    after: Artifacts,
    action: AppAction,
    r: Option<AppAction>,
) -> bool {
    &&& match action {
        AppAction::ArtifactsSelectNextRow | AppAction::ArtifactsSelectPreviousRow => {
            &&& after.rows == before.rows
            &&& after.same_flags(&before)
            &&& after.rows@.len() > 0 ==> after.selected is Some
        },
        AppAction::ArtifactsInsertRow(row) => {
            &&& after.rows@ == before.rows@.push(row)
            &&& after.selected == before.selected
            &&& after.same_flags(&before)
        },
        AppAction::ArtifactsRemoveRow => {
            &&& after.selected == before.selected
            &&& after.same_flags(&before)
            &&& before.removable() ==> {
                let i = before.selected.unwrap() as int;
                let row = before.rows@[i];
                &&& after.rows@ == before.rows@.update(
                    i,
                    with_status(row, ProcessStatus::InProgress),
                )
                &&& r matches Some(AppAction::ArtifactsDeletePath { id, path }) && id
                    == row.id && path@ == row.path@
            }
            &&& !before.removable() ==> after.rows == before.rows
        },
        AppAction::ArtifactsUpdateStatus { id, status } => {
            &&& after.rows@ == before.rows@.map_values(
                |x: FolderInfo| finished(x, id, status),
            )
            &&& after.selected == before.selected
            &&& after.same_flags(&before)
        },
        AppAction::ArtifactsSetSize { id, bytes } => {
            &&& after.rows@ == before.rows@.map_values(
                |x: FolderInfo| sized(x, id, bytes),
            )
            &&& after.selected == before.selected
            &&& after.same_flags(&before)
        },
        AppAction::ArtifactsSetLastModified { id, secs } => {
            &&& after.rows@ == before.rows@.map_values(
                |x: FolderInfo| aged(x, id, secs),
            )
            &&& after.selected == before.selected
            &&& after.same_flags(&before)
        },
        AppAction::ArtifactsSortByPath => sorted_toward(
            &before,
            &after,
            SortColumn::Path,
        ),
        AppAction::ArtifactsSortBySize => sorted_toward(
            &before,
            &after,
            SortColumn::Size,
        ),
        AppAction::ArtifactsSortByLastMod => sorted_toward(
            &before,
            &after,
            SortColumn::LastModified,
        ),
        _ => {
            &&& after.rows == before.rows
            &&& after.selected == before.selected
            &&& after.same_flags(&before)
        },
    }
    &&& (action == AppAction::ArtifactsSelectNextRow ==> after.selected == (if before.rows@.len()
        == 0 {
        None
    } else {
        match before.selected {
            None => Some(0usize),
            Some(i) => Some(
                if i + 1 < before.rows@.len() {
                    (i + 1) as usize
                } else {
                    (before.rows@.len() - 1) as usize
                },
            ),
        }
    }))
    &&& (action == AppAction::ArtifactsSelectPreviousRow ==> after.selected == (if before.rows@.len()
        == 0 {
        None
    } else {
        match before.selected {
            None => Some((before.rows@.len() - 1) as usize),
            Some(i) => Some(
                if i == 0 {
                    0usize
                } else if i - 1 < before.rows@.len() {
                    (i - 1) as usize
                } else {
                    (before.rows@.len() - 1) as usize
                },
            ),
        }
    }))
    &&& (action is ArtifactsRemoveRow && before.removable() ==> r is Some && r.unwrap() is ArtifactsDeletePath)
    &&& (!(action is ArtifactsRemoveRow && before.removable()) ==> r == Some(AppAction::Render))
}

/// `after` is `before` with the direction of `col` flipped and the rows
/// sorted by `col` in the new direction.
pub open spec fn sorted_toward(before: &Artifacts, after: &Artifacts, col: SortColumn) -> bool {
    &&& after.selected == before.selected
    &&& after.descending_flag(col) == !before.descending_flag(col)
    &&& forall|c: SortColumn| c != col ==> after.descending_flag(c) == before.descending_flag(c)
    &&& after.rows@.to_multiset() == before.rows@.to_multiset()
    &&& sorted_by(after.rows@, col, after.descending_flag(col))
    &&& ties_kept(after.rows@, before.rows@, col)
}

/// The actions that report how the deletion of row `id` ended: its new
/// status, then (on failure) the reason as an error, then a redraw.
pub fn removal_outcome(id: u128, outcome: Result<(), String>) -> (r: Vec<AppAction>)
    ensures
        match outcome {
            Ok(_) => r@.len() == 2 && r@[0] == (AppAction::ArtifactsUpdateStatus {
                id,
                status: ProcessStatus::Completed,
            }),
            Err(reason) => {
                &&& r@.len() == 3
                &&& r@[0] == (AppAction::ArtifactsUpdateStatus { id, status: ProcessStatus::Failed })
                &&& r@[1] matches AppAction::Error(msg) && msg@ == "Failed to remove path: "@ + reason@
            },
        },
        r@.last() == AppAction::Render,
{
    let mut r: Vec<AppAction> = Vec::new();
    match outcome {
        Ok(_) => {
            r.push(AppAction::ArtifactsUpdateStatus { id, status: ProcessStatus::Completed });
        },
        Err(reason) => {
            r.push(AppAction::ArtifactsUpdateStatus { id, status: ProcessStatus::Failed });
            let mut msg = String::from_str("Failed to remove path: ");
            msg.append(reason.as_str());
            r.push(AppAction::Error(msg));
        },
    }
    r.push(AppAction::Render);
    r
}

/// A measurement is taken once: a row whose size (or age) is known keeps it
/// whatever is measured later, and after a first measurement a second one
/// changes nothing.
pub proof fn lemma_measurements_set_once(r: FolderInfo, id: u128, first: u64, second: u64)
    ensures
        r.size is Some ==> sized(r, id, first) == r,
        r.last_modified is Some ==> aged(r, id, first) == r,
        sized(sized(r, id, first), id, second) == sized(r, id, first),
        aged(aged(r, id, first), id, second) == aged(r, id, first),
        sized(r, id, first).size is None ==> r.size is None,
        aged(r, id, first).last_modified is None ==> r.last_modified is None,
{
}

/// Sorting twice by the same column restores that column's direction; the
/// rows are the same ones, sorted in the direction they had before the
/// first toggle.
pub proof fn lemma_double_toggle_restores_direction(
    a: &Artifacts,
    b: &Artifacts,
    c: &Artifacts,
    col: SortColumn,
)
    requires
        sorted_toward(a, b, col),
        sorted_toward(b, c, col),
    ensures
        c.descending_flag(col) == a.descending_flag(col),
        forall|other: SortColumn| #[trigger] c.descending_flag(other) == a.descending_flag(other),
        c.rows@.to_multiset() == a.rows@.to_multiset(),
        sorted_by(c.rows@, col, a.descending_flag(col)),
        c.selected == a.selected,
{
}

proof fn lemma_chars_lt_trans(a: Seq<char>, b: Seq<char>, c: Seq<char>)
    requires
        chars_lt(a, b),
        chars_lt(b, c),
    ensures
        chars_lt(a, c),
{
    let k1 = choose|k: int|
        0 <= k <= a.len() && k <= b.len() && a.subrange(0, k) == b.subrange(0, k) && (if k
            == a.len() {
            k < b.len()
        } else {
            k < b.len() && a[k] < b[k]
        });
    let k2 = choose|k: int|
        0 <= k <= b.len() && k <= c.len() && b.subrange(0, k) == c.subrange(0, k) && (if k
            == b.len() {
            k < c.len()
        } else {
            k < c.len() && b[k] < c[k]
        });
    let k = if k1 < k2 { k1 } else { k2 };
    assert(a.subrange(0, k) =~= c.subrange(0, k)) by {
        assert forall|j: int| 0 <= j < k implies a[j] == c[j] by {
            assert(a.subrange(0, k1)[j] == b.subrange(0, k1)[j]);
            assert(b.subrange(0, k2)[j] == c.subrange(0, k2)[j]);
        }
    }
    if k1 < k2 {
        if k1 < a.len() {
            assert(b.subrange(0, k2)[k1] == c.subrange(0, k2)[k1]);
        }
    } else if k2 < k1 {
        assert(a.subrange(0, k1)[k2] == b.subrange(0, k1)[k2]);
    }
}

/// `in_order` is transitive, and cannot hold against a strict precedence.
proof fn lemma_in_order_trans(col: SortColumn, descending: bool, x: FolderInfo, y: FolderInfo, z: FolderInfo)
    requires
        in_order(col, descending, x, y),
        in_order(col, descending, y, z),
    ensures
        in_order(col, descending, x, z),
        !key_eq(col, x, z) ==> !in_order(col, descending, z, x),
{
    if col == SortColumn::Path {
        if chars_lt(x.path@, y.path@) && chars_lt(y.path@, z.path@) {
            lemma_chars_lt_trans(x.path@, y.path@, z.path@);
        }
        if chars_lt(z.path@, y.path@) && chars_lt(y.path@, x.path@) {
            lemma_chars_lt_trans(z.path@, y.path@, x.path@);
        }
        if !key_eq(col, x, z) && in_order(col, descending, z, x) {
            if descending {
                if chars_lt(z.path@, x.path@) && chars_lt(x.path@, z.path@) {
                    lemma_chars_lt_trans(z.path@, x.path@, z.path@);
                }
            } else {
                if chars_lt(x.path@, z.path@) && chars_lt(z.path@, x.path@) {
                    lemma_chars_lt_trans(x.path@, z.path@, x.path@);
                }
            }
        }
    }
}

proof fn lemma_sorted_global(rows: Seq<FolderInfo>, col: SortColumn, descending: bool, i: int, j: int)
    requires
        sorted_by(rows, col, descending),
        0 <= i <= j < rows.len(),
    ensures
        in_order(col, descending, rows[i], rows[j]),
    decreases j - i,
{
    if i < j {
        lemma_sorted_global(rows, col, descending, i, j - 1);
        let k = j - 1;
        assert(in_order(col, descending, rows[k], rows[k + 1]));
        lemma_in_order_trans(col, descending, rows[i], rows[j - 1], rows[j]);
    }
}

proof fn lemma_filter_empty(pred: spec_fn(FolderInfo) -> bool)
    ensures
        Seq::<FolderInfo>::empty().filter(pred) == Seq::<FolderInfo>::empty(),
{
    reveal(Seq::filter);
    assert(Seq::<FolderInfo>::empty().filter(pred) =~= Seq::<FolderInfo>::empty());
}

/// The first row of a non-empty sequence passes its own key's filter first.
proof fn lemma_filter_head(s: Seq<FolderInfo>, col: SortColumn, e: FolderInfo)
    requires
        s.len() > 0,
    ensures
        s.filter(same_key(col, e)) == seq![s[0]].filter(same_key(col, e)) + s.drop_first().filter(
            same_key(col, e),
        ),
{
    broadcast use Seq::filter_distributes_over_add;

    assert(s =~= seq![s[0]] + s.drop_first());
}

/// Two orderings of rows that are both sorted the same way and agree on
/// the order among equal keys are the same ordering.
pub proof fn lemma_sorted_unique(s1: Seq<FolderInfo>, s2: Seq<FolderInfo>, col: SortColumn, descending: bool)
    requires
        sorted_by(s1, col, descending),
        sorted_by(s2, col, descending),
        ties_kept(s2, s1, col),
    ensures
        s1 == s2,
    decreases s1.len() + s2.len(),
{
    if s1.len() == 0 || s2.len() == 0 {
        lemma_filter_empty(same_key(col, s1[0]));
        lemma_filter_empty(same_key(col, s2[0]));
        if s1.len() > 0 {
            let c = same_key(col, s1[0]);
            lemma_filter_head(s1, col, s1[0]);
            lemma_filter_single(s1[0], c);
            assert(s2 =~= Seq::<FolderInfo>::empty());
            assert(s1.filter(c).len() > 0);
            assert(s2.filter(c) == s1.filter(c));
        } else if s2.len() > 0 {
            let c = same_key(col, s2[0]);
            lemma_filter_head(s2, col, s2[0]);
            lemma_filter_single(s2[0], c);
            assert(s1 =~= Seq::<FolderInfo>::empty());
            assert(s2.filter(c).len() > 0);
            assert(s2.filter(c) == s1.filter(c));
        } else {
            assert(s1 =~= s2);
        }
    } else {
        let h1 = s1[0];
        let h2 = s2[0];
        let t1 = s1.drop_first();
        let t2 = s2.drop_first();
        let c1 = same_key(col, h1);
        let c2 = same_key(col, h2);
        lemma_filter_head(s1, col, h1);
        lemma_filter_head(s2, col, h1);
        lemma_filter_head(s1, col, h2);
        lemma_filter_head(s2, col, h2);
        lemma_filter_single(h1, c1);
        lemma_filter_single(h2, c1);
        lemma_filter_single(h1, c2);
        lemma_filter_single(h2, c2);
        assert(s1.filter(c1) == s2.filter(c1));
        assert(s1.filter(c2) == s2.filter(c2));
        if !key_eq(col, h1, h2) {
            assert(!key_eq(col, h2, h1));
            // h2 is further down s1, h1 further down s2
            assert(s1.filter(c2) == t1.filter(c2));
            assert(s2.filter(c2)[0] == h2);
            lemma_filter_member(t1, c2, 0);
            let n = choose|n: int| 0 <= n < t1.len() && t1[n] == h2;
            assert(s1[n + 1] == h2);
            lemma_sorted_global(s1, col, descending, 0, n + 1);
            assert(s2.filter(c1) == t2.filter(c1));
            assert(s1.filter(c1)[0] == h1);
            lemma_filter_member(t2, c1, 0);
            let m = choose|m: int| 0 <= m < t2.len() && t2[m] == h1;
            assert(s2[m + 1] == h1);
            lemma_sorted_global(s2, col, descending, 0, m + 1);
            lemma_in_order_trans(col, descending, h1, h2, h2);
        }
        assert(s1.filter(c1)[0] == h1);
        assert(s2.filter(c1)[0] == h2);
        assert(h1 == h2);
        assert(ties_kept(t2, t1, col)) by {
            assert forall|e: FolderInfo| #[trigger] t2.filter(same_key(col, e)) == t1.filter(same_key(col, e)) by {
                let c = same_key(col, e);
                lemma_filter_head(s1, col, e);
                lemma_filter_head(s2, col, e);
                let hd = seq![h1].filter(c);
                assert(s1.filter(c) == s2.filter(c));
                assert(t1.filter(c) =~= s1.filter(c).skip(hd.len() as int));
                assert(t2.filter(c) =~= s2.filter(c).skip(hd.len() as int));
            }
        }
        assert(sorted_by(t1, col, descending)) by {
            assert forall|i: int| 0 <= i < t1.len() - 1 implies #[trigger] in_order(col, descending, t1[i], t1[i + 1]) by {
                assert(in_order(col, descending, s1[i + 1], s1[i + 1 + 1]));
            }
        }
        assert(sorted_by(t2, col, descending)) by {
            assert forall|i: int| 0 <= i < t2.len() - 1 implies #[trigger] in_order(col, descending, t2[i], t2[i + 1]) by {
                assert(in_order(col, descending, s2[i + 1], s2[i + 1 + 1]));
            }
        }
        lemma_sorted_unique(t1, t2, col, descending);
        assert(s1 =~= seq![h1] + t1);
        assert(s2 =~= seq![h2] + t2);
    }
}

/// Sorting twice by the same column brings back the order from before the
/// first of the two sorts, when that order was already sorted by the column
/// in its current direction (as any sort by it leaves it).
pub proof fn lemma_double_toggle_restores_order(
    a: &Artifacts,
    b: &Artifacts,
    c: &Artifacts,
    col: SortColumn,
)
    requires
        sorted_toward(a, b, col),
        sorted_toward(b, c, col),
        sorted_by(a.rows@, col, a.descending_flag(col)),
    ensures
        c.rows@ == a.rows@,
{
    lemma_double_toggle_restores_direction(a, b, c, col);
    assert(ties_kept(c.rows@, a.rows@, col)) by {
        assert forall|e: FolderInfo| #[trigger] c.rows@.filter(same_key(col, e)) == a.rows@.filter(same_key(col, e)) by {
            assert(c.rows@.filter(same_key(col, e)) == b.rows@.filter(same_key(col, e)));
            assert(b.rows@.filter(same_key(col, e)) == a.rows@.filter(same_key(col, e)));
        }
    }
    lemma_sorted_unique(a.rows@, c.rows@, col, a.descending_flag(col));
}
/// Every row of `before` whose size is known is still in `after`, by its
/// identifier, with that size; and so for the age.
pub open spec fn measurements_kept(before: Seq<FolderInfo>, after: Seq<FolderInfo>) -> bool {
    forall|i: int|
        #![trigger before[i]]
        0 <= i < before.len() ==> {
            &&& before[i].size is Some ==> exists|j: int|
                0 <= j < after.len() && after[j].id == before[i].id && after[j].size
                    == before[i].size
            &&& before[i].last_modified is Some ==> exists|j: int|
                0 <= j < after.len() && after[j].id == before[i].id && after[j].last_modified
                    == before[i].last_modified
        }
}

proof fn lemma_kept_by_permutation(b: Seq<FolderInfo>, a: Seq<FolderInfo>)
    requires
        a.to_multiset() == b.to_multiset(),
    ensures
        measurements_kept(b, a),
{
    broadcast use vstd::seq_lib::group_to_multiset_ensures;

    assert forall|i: int| #![trigger b[i]] 0 <= i < b.len() implies a.contains(b[i]) by {
        assert(b.contains(b[i]));
        assert(b.to_multiset().count(b[i]) > 0);
        assert(a.to_multiset().count(b[i]) > 0);
    }
}

proof fn lemma_kept_pointwise(b: Seq<FolderInfo>, a: Seq<FolderInfo>)
    requires
        a.len() >= b.len(),
        forall|i: int|
            #![trigger a[i]]
            0 <= i < b.len() ==> a[i].id == b[i].id && (b[i].size is Some ==> a[i].size == b[i].size)
                && (b[i].last_modified is Some ==> a[i].last_modified == b[i].last_modified),
    ensures
        measurements_kept(b, a),
{
    assert forall|i: int| #![trigger b[i]] 0 <= i < b.len() implies a[i].id == b[i].id by {}
}

/// A known size or age is never lost or replaced, whatever action the
/// table applies.
pub proof fn lemma_table_keeps_measurements(
    before: Artifacts,
    after: Artifacts,
    action: AppAction,
    r: Option<AppAction>,
)
    requires
        before.wf(),
        performed(before, after, action, r),
    ensures
        measurements_kept(before.rows@, after.rows@),
{
    let b = before.rows@;
    let a = after.rows@;
    match action {
        AppAction::ArtifactsSortByPath => {
            lemma_kept_by_permutation(b, a);
        },
        AppAction::ArtifactsSortBySize => {
            lemma_kept_by_permutation(b, a);
        },
        AppAction::ArtifactsSortByLastMod => {
            lemma_kept_by_permutation(b, a);
        },
        AppAction::ArtifactsInsertRow(row) => {
            assert(a == b.push(row));
            lemma_kept_pointwise(b, a);
        },
        AppAction::ArtifactsRemoveRow => {
            lemma_kept_pointwise(b, a);
        },
        AppAction::ArtifactsUpdateStatus { id, status } => {
            assert(a == b.map_values(|x: FolderInfo| finished(x, id, status)));
            lemma_kept_pointwise(b, a);
        },
        AppAction::ArtifactsSetSize { id, bytes } => {
            assert(a == b.map_values(|x: FolderInfo| sized(x, id, bytes)));
            lemma_kept_pointwise(b, a);
        },
        AppAction::ArtifactsSetLastModified { id, secs } => {
            assert(a == b.map_values(|x: FolderInfo| aged(x, id, secs)));
            lemma_kept_pointwise(b, a);
        },
        _ => {
            lemma_kept_pointwise(b, a);
        },
    }
}
} // verus!
