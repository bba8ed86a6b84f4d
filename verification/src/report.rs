use vstd::prelude::*;
use vstd::multiset::Multiset;
use vstd::relations::sorted_by;
use vstd::relations::total_ordering;
use vstd::seq_lib::lemma_sorted_unique;
use vstd::string::StrSliceExecFns;
use vstd::string::StringExecFns;
use crate::decimal::dec_rep;
use crate::decimal::u64_to_string;
use crate::profile::Profiler;
use crate::profile::lemma_sum_values_nonneg;
use crate::profile::lemma_sum_values_prefix;
use crate::profile::lemma_value_le_sum;
use crate::profile::sum_values;

verus! {

/// Report order: longer durations first; equal durations ordered by
/// ascending function index, so that the report is deterministic.
pub open spec fn entry_le(a: (u32, u64), b: (u32, u64)) -> bool {
    a.1 > b.1 || (a.1 == b.1 && a.0 <= b.0)
}

pub open spec fn entry_order() -> spec_fn((u32, u64), (u32, u64)) -> bool {
    |a: (u32, u64), b: (u32, u64)| entry_le(a, b)
}

pub proof fn lemma_entry_order_total()
    ensures
        total_ordering(entry_order()),
{
    let r = entry_order();
    assert forall|x: (u32, u64)| #[trigger] r(x, x) by {}
    assert forall|x: (u32, u64), y: (u32, u64)| #[trigger] r(x, y) && #[trigger] r(y, x)
        implies x == y by {}
    assert forall|x: (u32, u64), y: (u32, u64), z: (u32, u64)|
        #[trigger] r(x, y) && #[trigger] r(y, z) implies r(x, z) by {}
    assert forall|x: (u32, u64), y: (u32, u64)| #[trigger] r(x, y) || #[trigger] r(y, x) by {}
}

/// The display label for a function index: its registered name, or the
/// literal `<index:N>` form when no name is known.
pub open spec fn label_of(names: Map<u32, Seq<char>>, k: u32) -> Seq<char> {
    if names.dom().contains(k) {
        names[k]
    } else {
        "<index:"@ + dec_rep(k as int) + ">"@
    }
}

/// One report line for an entry, with its percentage of the total,
/// truncated to an integer.
pub open spec fn line_of(names: Map<u32, Seq<char>>, total: int, e: (u32, u64)) -> Seq<char> {
    "Function "@ + label_of(names, e.0) + " took "@ + dec_rep(e.1 as int) + "us ("@ + dec_rep(
        e.1 * 100 / total,
    ) + "%)\n"@
}

pub open spec fn lines_of(
    names: Map<u32, Seq<char>>,
    total: int,
    entries: Seq<(u32, u64)>,
) -> Seq<char>
    decreases entries.len(),
{
    if entries.len() == 0 {
        Seq::empty()
    } else {
        line_of(names, total, entries.first()) + lines_of(names, total, entries.drop_first())
    }
}

/// The whole report: a total line, then one line per entry in report
/// order. A zero total (in particular an empty profile) yields only the
/// total line, so no percentage is ever computed from a zero total.
pub open spec fn report_of(profile: Seq<(u32, u64)>, names: Map<u32, Seq<char>>) -> Seq<char> {
    let total = sum_values(profile);
    let head = "Total time taken "@ + dec_rep(total) + "us\n"@;
    if total == 0 {
        head
    } else {
        head + lines_of(names, total, profile.sort_by(entry_order()))
    }
}

proof fn lemma_lines_of_snoc(names: Map<u32, Seq<char>>, total: int, s: Seq<(u32, u64)>, i: int)
    requires
        0 <= i < s.len(),
    ensures
        lines_of(names, total, s.take(i + 1)) == lines_of(names, total, s.take(i)) + line_of(
            names,
            total,
            s[i],
        ),
    decreases i,
{
    if i == 0 {
        assert(s.take(1).drop_first() =~= Seq::<(u32, u64)>::empty());
        assert(s.take(1).first() == s[0]);
        assert(s.take(0) =~= Seq::<(u32, u64)>::empty());
        assert(lines_of(names, total, s.take(1)) =~= lines_of(names, total, s.take(0)) + line_of(
            names,
            total,
            s[0],
        ));
    } else {
        let d = s.drop_first();
        lemma_lines_of_snoc(names, total, d, i - 1);
        assert(s.take(i + 1).first() == s[0]);
        assert(s.take(i + 1).drop_first() =~= d.take(i));
        assert(s.take(i).first() == s[0]);
        assert(s.take(i).drop_first() =~= d.take(i - 1));
        assert(d[i - 1] == s[i]);
        assert(line_of(names, total, s[0]) + (lines_of(names, total, d.take(i - 1)) + line_of(
            names,
            total,
            s[i],
        )) =~= (line_of(names, total, s[0]) + lines_of(names, total, d.take(i - 1))) + line_of(
            names,
            total,
            s[i],
        ));
    }
}

fn entry_le_exec(a: (u32, u64), b: (u32, u64)) -> (r: bool)
    ensures
        r == entry_le(a, b),
{
    a.1 > b.1 || (a.1 == b.1 && a.0 <= b.0)
}

/// Sort entries into report order.
fn sort_entries(src: Vec<(u32, u64)>) -> (out: Vec<(u32, u64)>)
    ensures
        out@ == src@.sort_by(entry_order()),
{
    broadcast use vstd::seq_lib::group_to_multiset_ensures;

    let ghost orig = src@;
    let mut rest = src;
    let mut out: Vec<(u32, u64)> = Vec::new();
    proof {
        assert(out@.to_multiset().add(rest@.to_multiset()) =~= orig.to_multiset());
    }
    while rest.len() > 0
        invariant
            out@.to_multiset().add(rest@.to_multiset()) == orig.to_multiset(),
            sorted_by(out@, entry_order()),
            forall|i: int, j: int|
                0 <= i < out@.len() && 0 <= j < rest@.len() ==> entry_le(
                    #[trigger] out@[i],
                    #[trigger] rest@[j],
                ),
        decreases rest@.len(),
    {
        let mut best: usize = 0;
        let mut t: usize = 1;
        while t < rest.len()
            invariant
                0 < rest@.len(),
                0 <= best < t <= rest@.len(),
                forall|q: int| 0 <= q < t ==> entry_le(rest@[best as int], #[trigger] rest@[q]),
            decreases rest@.len() - t,
        {
            if !entry_le_exec(rest[best], rest[t]) {
                best = t;
            }
            t = t + 1;
        }
        let ghost rest0 = rest@;
        let ghost out0 = out@;
        let m = rest.remove(best);
        out.push(m);
        proof {
            rest0.to_multiset_ensures();
            out0.to_multiset_ensures();
            assert(rest@ == rest0.remove(best as int));
            assert(out@ == out0.push(m));
            assert(rest0.contains(rest0[best as int]));
            assert(rest@.to_multiset() == rest0.to_multiset().remove(m));
            assert(out@.to_multiset() == out0.to_multiset().insert(m));
            assert(rest0.to_multiset().count(m) > 0);
            assert(out@.to_multiset().add(rest@.to_multiset()) =~= orig.to_multiset());
            assert(forall|i: int| 0 <= i < out0.len() ==> #[trigger] out@[i] == out0[i]);
            assert(forall|j: int|
                0 <= j < rest@.len() ==> #[trigger] rest@[j] == (if j < best as int {
                    rest0[j]
                } else {
                    rest0[j + 1]
                }));
            assert(sorted_by(out@, entry_order()));
            assert forall|i: int, j: int|
                0 <= i < out@.len() && 0 <= j < rest@.len() implies entry_le(
                #[trigger] out@[i],
                #[trigger] rest@[j],
            ) by {
                let jj: int = if j < best as int {
                    j
                } else {
                    j + 1
                };
                assert(rest@[j] == rest0[jj]);
                if i == out@.len() - 1 {
                    assert(out@[i] == m);
                    assert(entry_le(rest0[best as int], rest0[jj]));
                }
            }
        }
    }
    proof {
        assert(rest@.to_multiset() =~= Multiset::<(u32, u64)>::empty());
        assert(out@.to_multiset() =~= orig.to_multiset());
        lemma_entry_order_total();
        orig.lemma_sort_by_ensures(entry_order());
        lemma_sorted_unique(out@, orig.sort_by(entry_order()), entry_order());
        assert(out@ =~= orig.sort_by(entry_order()));
    }
    out
}

impl Profiler {
    /// The total of all aggregated durations, in microseconds.
    pub fn total_micros(&self) -> (t: u64)
        requires
            self.wf(),
        ensures
            t as int == sum_values(self.profile@),
    {
        let mut acc: u64 = 0;
        let mut j: usize = 0;
        proof {
            assert(self.profile@.take(0) =~= Seq::<(u32, u64)>::empty());
        }
        while j < self.profile.len()
            invariant
                self.wf(),
                0 <= j <= self.profile@.len(),
                acc as int == sum_values(self.profile@.take(j as int)),
            decreases self.profile@.len() - j,
        {
            proof {
                assert(self.profile@.take(j + 1).drop_last() =~= self.profile@.take(j as int));
                assert(self.profile@.take(j + 1).last() == self.profile@[j as int]);
                lemma_sum_values_prefix(self.profile@, j + 1);
            }
            acc = acc + self.profile[j].1;
            j = j + 1;
        }
        proof {
            assert(self.profile@.take(j as int) =~= self.profile@);
        }
        acc
    }

    /// Render the report described by `report_of`: the total duration,
    /// then one line per function in order of descending duration
    /// (ties broken by ascending function index), each with its name or
    /// `<index:N>` placeholder and its truncated percentage share.
    pub fn render(&self) -> (r: String)
        requires
            self.wf(),
        ensures
            r@ == report_of(self.profile@, self.name_map()),
    {
        broadcast use vstd::seq_lib::group_to_multiset_ensures;

        let total = self.total_micros();
        let mut r = String::from_str("Total time taken ");
        let ts = u64_to_string(total);
        r.append(ts.as_str());
        r.append("us\n");
        let ghost names = self.name_map();
        let ghost head = "Total time taken "@ + dec_rep(total as int) + "us\n"@;
        proof {
            assert(r@ =~= head);
        }
        if total == 0 {
            return r;
        }
        let mut entries: Vec<(u32, u64)> = Vec::new();
        let mut c: usize = 0;
        while c < self.profile.len()
            invariant
                0 <= c <= self.profile@.len(),
                entries@ == self.profile@.take(c as int),
            decreases self.profile@.len() - c,
        {
            entries.push(self.profile[c]);
            proof {
                assert(entries@ =~= self.profile@.take(c + 1));
            }
            c = c + 1;
        }
        proof {
            assert(entries@ =~= self.profile@);
        }
        let sorted = sort_entries(entries);
        let ghost sq = self.profile@.sort_by(entry_order());
        proof {
            lemma_entry_order_total();
            self.profile@.lemma_sort_by_ensures(entry_order());
        }
        let mut i: usize = 0;
        proof {
            assert(sq.take(0) =~= Seq::<(u32, u64)>::empty());
            assert(r@ =~= head + lines_of(names, total as int, sq.take(0)));
        }
        while i < sorted.len()
            invariant
                self.wf(),
                names == self.name_map(),
                sorted@ == sq,
                sq == self.profile@.sort_by(entry_order()),
                sq.to_multiset() == self.profile@.to_multiset(),
                0 <= i <= sq.len(),
                total as int == sum_values(self.profile@),
                total > 0,
                r@ == head + lines_of(names, total as int, sq.take(i as int)),
            decreases sq.len() - i,
        {
            broadcast use vstd::seq_lib::group_to_multiset_ensures;

            let k = sorted[i].0;
            let d = sorted[i].1;
            proof {
                assert(sq[i as int] == (k, d));
                assert(sq.contains((k, d)));
                assert(self.profile@.to_multiset().count((k, d)) > 0);
                assert(self.profile@.contains((k, d)));
                let w = choose|w: int| 0 <= w < self.profile@.len() && self.profile@[w] == (k, d);
                lemma_value_le_sum(self.profile@, w);
                assert(d <= total);
            }
            r.append("Function ");
            match self.lookup_name(k) {
                Some(nm) => {
                    r.append(nm.as_str());
                },
                None => {
                    r.append("<index:");
                    let ks = u64_to_string(k as u64);
                    r.append(ks.as_str());
                    r.append(">");
                },
            }
            r.append(" took ");
            let ds = u64_to_string(d);
            r.append(ds.as_str());
            r.append("us (");
            let pct128 = (d as u128) * 100 / (total as u128);
            proof {
                assert(pct128 as int == d as int * 100 / total as int);
                assert(d as int * 100 / total as int <= 100) by {
                    vstd::arithmetic::div_mod::lemma_div_is_ordered(
                        d as int * 100,
                        total as int * 100,
                        total as int,
                    );
                    assert(total as int * 100 / total as int == 100) by (nonlinear_arith)
                        requires
                            total > 0,
                    ;
                }
            }
            let pct = pct128 as u64;
            let ps = u64_to_string(pct);
            r.append(ps.as_str());
            r.append("%)\n");
            proof {
                lemma_lines_of_snoc(names, total as int, sq, i as int);
                assert(r@ =~= head + lines_of(names, total as int, sq.take(i + 1)));
            }
            i = i + 1;
        }
        proof {
            assert(sq.take(i as int) =~= sq);
        }
        r
    }
}

/// Sum of the truncated percentages of a sequence of entries, against a
/// total.
pub open spec fn sum_percentages(entries: Seq<(u32, u64)>, total: int) -> int
    decreases entries.len(),
{
    if entries.len() == 0 {
        0
    } else {
        sum_percentages(entries.drop_last(), total) + entries.last().1 * 100 / total
    }
}

proof fn lemma_div_add_bounds(x: int, y: int, t: int)
    requires
        t > 0,
        x >= 0,
        y >= 0,
    ensures
        x / t + y / t <= (x + y) / t,
        (x + y) / t <= x / t + y / t + 1,
{
    vstd::arithmetic::div_mod::lemma_fundamental_div_mod(x, t);
    vstd::arithmetic::div_mod::lemma_fundamental_div_mod(y, t);
    vstd::arithmetic::div_mod::lemma_fundamental_div_mod(x + y, t);
    vstd::arithmetic::div_mod::lemma_mod_bound(x, t);
    vstd::arithmetic::div_mod::lemma_mod_bound(y, t);
    vstd::arithmetic::div_mod::lemma_mod_bound(x + y, t);
    assert(x / t + y / t <= (x + y) / t && (x + y) / t <= x / t + y / t + 1) by (nonlinear_arith)
        requires
            t > 0,
            x == t * (x / t) + x % t,
            y == t * (y / t) + y % t,
            x + y == t * ((x + y) / t) + (x + y) % t,
            0 <= x % t < t,
            0 <= y % t < t,
            0 <= (x + y) % t < t,
    ;
}

proof fn lemma_percentage_bounds(s: Seq<(u32, u64)>, t: int)
    requires
        t > 0,
    ensures
        sum_values(s) * 100 / t - s.len() <= sum_percentages(s, t),
        sum_percentages(s, t) <= sum_values(s) * 100 / t,
    decreases s.len(),
{
    if s.len() == 0 {
        assert(0int * 100 / t == 0) by (nonlinear_arith)
            requires
                t > 0,
        ;
    } else {
        let a = sum_values(s.drop_last());
        let b = s.last().1 as int;
        lemma_percentage_bounds(s.drop_last(), t);
        lemma_sum_values_nonneg(s.drop_last());
        lemma_div_add_bounds(a * 100, b * 100, t);
        assert((a + b) * 100 == a * 100 + b * 100) by (nonlinear_arith);
    }
}

/// Law: with a positive total, the truncated per-entry percentages sum
/// to at most 100, and fall short of 100 by at most the number of
/// entries (each truncation loses less than one percent).
pub proof fn lemma_percentage_sum(entries: Seq<(u32, u64)>)
    requires
        sum_values(entries) > 0,
    ensures
        sum_percentages(entries, sum_values(entries)) <= 100,
        100 - sum_percentages(entries, sum_values(entries)) <= entries.len(),
{
    let t = sum_values(entries);
    lemma_percentage_bounds(entries, t);
    assert(t * 100 / t == 100) by (nonlinear_arith)
        requires
            t > 0,
    ;
}

} // verus!
