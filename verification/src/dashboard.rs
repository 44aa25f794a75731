//! A dashboard of active issues: a set of issue records keyed by their code.
//! Submitting activates an issue unless its code is already active; solving
//! deactivates by code. The dashboard is a plain value; callers that share
//! one across threads wrap it themselves.

use vstd::prelude::*;

verus! {

/// Identifies an issue: a caller-chosen discriminator standing for the
/// issue's type, and a distinctive string within that type.
pub struct Code {
    pub issue_type: u64,
    pub distinctive: String,
}

impl View for Code {
    type V = (u64, Seq<char>);

    open spec fn view(&self) -> (u64, Seq<char>) {
        (self.issue_type, self.distinctive@)
    }
}

impl Code {
    /// A code from a type discriminator and a distinctive string.
    pub fn new(issue_type: u64, distinctive: String) -> (r: Code)
        ensures
            r@ == (issue_type, distinctive@),
    {
        Code { issue_type, distinctive }
    }

    /// A copy with the same content.
    pub fn duplicate(&self) -> (r: Code)
        ensures
            r@ == self@,
    {
        Code { issue_type: self.issue_type, distinctive: self.distinctive.clone() }
    }
}

/// An active issue as the dashboard stores it.
pub struct IssueRecord {
    pub code: Code,
    pub description: String,
}

impl View for IssueRecord {
    type V = ((u64, Seq<char>), Seq<char>);

    open spec fn view(&self) -> ((u64, Seq<char>), Seq<char>) {
        (self.code@, self.description@)
    }
}

impl IssueRecord {
    /// A copy with the same content.
    pub fn duplicate(&self) -> (r: IssueRecord)
        ensures
            r@ == self@,
    {
        IssueRecord { code: self.code.duplicate(), description: self.description.clone() }
    }
}

/// Something that can be reported: it names its code and describes itself.
/// Implemented by callers; the dashboard only calls these once per submit.
pub trait Issue {
    fn code(&self) -> Code;

    fn description(&self) -> String;
}

/// The record views of a record sequence.
pub open spec fn records_view(s: Seq<IssueRecord>) -> Seq<((u64, Seq<char>), Seq<char>)> {
    Seq::new(s.len(), |k: int| s[k]@)
}

/// The set of active issues, each under a distinct code.
pub struct Dashboard {
    pub(crate) issues: Vec<IssueRecord>,
}

impl View for Dashboard {
    type V = Seq<((u64, Seq<char>), Seq<char>)>;

    /// The active records, in order of activation.
    open(crate) spec fn view(&self) -> Seq<((u64, Seq<char>), Seq<char>)> {
        records_view(self.issues@)
    }
}

impl Dashboard {
    /// No two active records share a code.
    #[verifier::type_invariant]
    pub open spec fn codes_unique(self) -> bool {
        forall|a: int, b: int|
            0 <= a < b < self@.len() ==> (#[trigger] self@[a]).0 != (#[trigger] self@[b]).0
    }

    /// Whether some active record carries the code `c`.
    pub open spec fn has_code(self, c: (u64, Seq<char>)) -> bool {
        exists|k: int| 0 <= k < self@.len() && (#[trigger] self@[k]).0 == c
    }

    /// An empty dashboard.
    pub fn new() -> (r: Dashboard)
        ensures
            r@ == Seq::<((u64, Seq<char>), Seq<char>)>::empty(),
    {
        let r = Dashboard { issues: Vec::new() };
        proof {
            assert(r@ =~= Seq::<((u64, Seq<char>), Seq<char>)>::empty());
        }
        r
    }
}

impl Default for Dashboard {
    /// Same as `Dashboard::new`.
    fn default() -> (r: Dashboard)
        ensures
            r@ == Seq::<((u64, Seq<char>), Seq<char>)>::empty(),
    {
        Dashboard::new()
    }
}

/// Activates `rec` unless its code is already active; true when it was not.
pub fn submit_record(dash: &mut Dashboard, rec: IssueRecord) -> (r: bool)
    ensures
        r == !old(dash).has_code(rec@.0),
        r ==> final(dash)@ == old(dash)@.push(rec@),
        !r ==> final(dash)@ == old(dash)@,
{
    proof {
        use_type_invariant(&*dash);
    }
    match find_code(dash, &rec.code) {
        Option::Some(_) => false,
        Option::None => {
            let mut tmp = Dashboard { issues: Vec::new() };
            core::mem::swap(&mut tmp, dash);
            let Dashboard { mut issues } = tmp;
            issues.push(rec);
            proof {
                assert(records_view(issues@) =~= old(dash)@.push(rec@));
            }
            *dash = Dashboard { issues };
            true
        },
    }
}

/// Position of the record carrying `code`, if one is active.
fn find_code(dash: &Dashboard, code: &Code) -> (r: Option<usize>)
    ensures
        match r {
            Option::Some(k) => k < dash@.len() && dash@[k as int].0 == code@,
            Option::None => !dash.has_code(code@),
        },
{
    proof {
        use_type_invariant(&*dash);
    }
    let mut k: usize = 0;
    while k < dash.issues.len()
        invariant
            k <= dash@.len(),
            dash@.len() == dash.issues@.len(),
            forall|t: int| 0 <= t < k ==> (#[trigger] dash@[t]).0 != code@,
        decreases dash@.len() - k,
    {
        let rec = &dash.issues[k];
        if rec.code.issue_type == code.issue_type && rec.code.distinctive == code.distinctive {
            return Option::Some(k);
        }
        k += 1;
    }
    Option::None
}

/// Submits an issue, returning true if its code (whatever the issue's
/// `code` method produced) was not active before: then its record is
/// appended; otherwise the dashboard is unchanged.
pub fn submit<I: Issue>(dash: &mut Dashboard, issue: I) -> (r: bool)
    ensures
        r ==> final(dash)@.len() == old(dash)@.len() + 1 && final(dash)@.subrange(
            0,
            old(dash)@.len() as int,
        ) == old(dash)@ && !old(dash).has_code(final(dash)@.last().0),
        !r ==> final(dash)@ == old(dash)@,
{
    let code = issue.code();
    let description = issue.description();
    let r = submit_record(dash, IssueRecord { code, description });
    proof {
        if r {
            assert(final(dash)@.subrange(0, old(dash)@.len() as int) =~= old(dash)@);
        }
    }
    r
}

/// Solves an issue by its code, returning true if it was active before.
pub fn solve(dash: &mut Dashboard, code: &Code) -> (r: bool)
    ensures
        r == old(dash).has_code(code@),
        r ==> exists|k: int|
            0 <= k < old(dash)@.len() && (#[trigger] old(dash)@[k]).0 == code@ && final(dash)@
                == old(dash)@.remove(k),
        !r ==> final(dash)@ == old(dash)@,
{
    proof {
        use_type_invariant(&*dash);
    }
    match find_code(dash, code) {
        Option::None => false,
        Option::Some(k) => {
            let ghost orig = dash@;
            let mut tmp = Dashboard { issues: Vec::new() };
            core::mem::swap(&mut tmp, dash);
            let Dashboard { mut issues } = tmp;
            issues.remove(k);
            proof {
                assert(records_view(issues@) =~= orig.remove(k as int));
                assert forall|a: int, b: int|
                    0 <= a < b < records_view(issues@).len() implies (#[trigger] records_view(
                    issues@,
                )[a]).0 != (#[trigger] records_view(issues@)[b]).0 by {
                    let ra = if a < k { a } else { a + 1 };
                    let rb = if b < k { b } else { b + 1 };
                    assert(records_view(issues@)[a] == orig[ra]);
                    assert(records_view(issues@)[b] == orig[rb]);
                }
            }
            *dash = Dashboard { issues };
            true
        },
    }
}

/// All active records, copied out in order of activation.
pub fn all_issues(dash: &Dashboard) -> (r: Vec<IssueRecord>)
    ensures
        r@.len() == dash@.len(),
        forall|k: int| 0 <= k < r@.len() ==> (#[trigger] r@[k])@ == dash@[k],
{
    let mut out: Vec<IssueRecord> = Vec::new();
    let mut k: usize = 0;
    while k < dash.issues.len()
        invariant
            k <= dash.issues@.len(),
            dash@.len() == dash.issues@.len(),
            out@.len() == k,
            forall|t: int| 0 <= t < k ==> (#[trigger] out@[t])@ == dash@[t],
        decreases dash.issues@.len() - k,
    {
        let rec = dash.issues[k].duplicate();
        out.push(rec);
        k += 1;
    }
    out
}

/// Deactivates every issue.
pub fn clear(dash: &mut Dashboard)
    ensures
        final(dash)@ == Seq::<((u64, Seq<char>), Seq<char>)>::empty(),
{
    let mut tmp = Dashboard { issues: Vec::new() };
    core::mem::swap(&mut tmp, dash);
    proof {
        assert(dash@ =~= Seq::<((u64, Seq<char>), Seq<char>)>::empty());
    }
}

/// Solves every issue of the given type whose code the filter selects.
/// Records of other types stay untouched; the filter is never asked about
/// them. A record of the given type leaves only when the filter answered
/// true for its code, and every record it kept answered false; so with a
/// filter whose answer depends on the code alone, exactly the selected
/// records leave. Survivors keep their order.
#[verifier::rlimit(100)]
pub fn solve_by_filter<F: Fn(&Code) -> bool>(dash: &mut Dashboard, issue_type: u64, filter: F)
    requires
        forall|c: &Code| #[trigger] call_requires(filter, (c,)),
    ensures
        forall|k: int|
            0 <= k < final(dash)@.len() ==> old(dash)@.contains(#[trigger] final(dash)@[k]),
        forall|k: int|
            0 <= k < old(dash)@.len() && (#[trigger] old(dash)@[k]).0.0 != issue_type
                ==> final(dash)@.contains(old(dash)@[k]),
        forall|k: int|
            0 <= k < old(dash)@.len() && (#[trigger] old(dash)@[k]).0.0 == issue_type
                && !final(dash)@.contains(old(dash)@[k]) ==> exists|c: &Code|
                (*c)@ == old(dash)@[k].0 && call_ensures(filter, (c,), true),
        forall|k: int|
            0 <= k < final(dash)@.len() && (#[trigger] final(dash)@[k]).0.0 == issue_type
                ==> exists|c: &Code| (*c)@ == final(dash)@[k].0 && call_ensures(filter, (c,), false),
{
    proof {
        use_type_invariant(&*dash);
    }
    let ghost orig = dash@;
    let mut tmp = Dashboard { issues: Vec::new() };
    core::mem::swap(&mut tmp, dash);
    let Dashboard { issues } = tmp;
    let mut kept: Vec<IssueRecord> = Vec::new();
    let ghost mut srcidx: Seq<int> = Seq::empty();
    let mut i: usize = 0;
    while i < issues.len()
        invariant
            forall|c: &Code| #[trigger] call_requires(filter, (c,)),
            i <= issues@.len(),
            records_view(issues@) == orig,
            forall|a: int, b: int|
                0 <= a < b < orig.len() ==> (#[trigger] orig[a]).0 != (#[trigger] orig[b]).0,
            srcidx.len() == kept@.len(),
            forall|a: int|
                0 <= a < srcidx.len() ==> 0 <= #[trigger] srcidx[a] < i && kept@[a]@
                    == orig[srcidx[a]],
            forall|a: int, b: int| 0 <= a < b < srcidx.len() ==> srcidx[a] < srcidx[b],
            forall|j: int|
                0 <= j < i && (#[trigger] orig[j]).0.0 != issue_type ==> exists|a: int|
                    0 <= a < srcidx.len() && #[trigger] srcidx[a] == j,
            forall|j: int|
                0 <= j < i && (#[trigger] orig[j]).0.0 == issue_type && !(exists|a: int|
                    0 <= a < srcidx.len() && #[trigger] srcidx[a] == j) ==> exists|c: &Code|
                    (*c)@ == orig[j].0 && call_ensures(filter, (c,), true),
            forall|a: int|
                0 <= a < srcidx.len() && ((#[trigger] kept@[a])@).0.0 == issue_type
                    ==> exists|c: &Code| (*c)@ == kept@[a]@.0 && call_ensures(filter, (c,), false),
        decreases issues@.len() - i,
    {
        let rec = &issues[i];
        proof {
            assert(orig[i as int] == issues@[i as int]@);
        }
        let ghost old_srcidx = srcidx;
        let ghost old_kept = kept@;
        let type_matches = rec.code.issue_type == issue_type;
        let discard = type_matches && filter(&rec.code);
        proof {
            if type_matches {
                assert(call_ensures(filter, (&rec.code,), discard));
                assert((&rec.code)@ == orig[i as int].0);
            }
        }
        if !discard {
            kept.push(issues[i].duplicate());
            proof {
                srcidx = srcidx.push(i as int);
            }
        }
        proof {
            if !discard {
                assert(srcidx[srcidx.len() - 1] == i as int);
            }
            assert forall|j: int|
                0 <= j < i + 1 && (#[trigger] orig[j]).0.0 != issue_type implies exists|a: int|
                0 <= a < srcidx.len() && #[trigger] srcidx[a] == j by {
                if j == i {
                    assert(srcidx[srcidx.len() - 1] == j);
                } else {
                    let a = choose|a: int|
                        0 <= a < old_srcidx.len() && #[trigger] old_srcidx[a] == j;
                    assert(srcidx[a] == j);
                }
            }
            assert forall|j: int|
                0 <= j < i + 1 && (#[trigger] orig[j]).0.0 == issue_type && !(exists|a: int|
                    0 <= a < srcidx.len() && #[trigger] srcidx[a] == j) implies exists|c: &Code|
                (*c)@ == orig[j].0 && call_ensures(filter, (c,), true) by {
                if j < i {
                    assert(!(exists|a: int| 0 <= a < old_srcidx.len() && #[trigger] old_srcidx[a]
                        == j)) by {
                        if exists|a: int|
                            0 <= a < old_srcidx.len() && #[trigger] old_srcidx[a] == j {
                            let a = choose|a: int|
                                0 <= a < old_srcidx.len() && #[trigger] old_srcidx[a] == j;
                            assert(srcidx[a] == j);
                        }
                    }
                } else {
                    assert(discard);
                    assert(call_ensures(filter, (&rec.code,), true));
                }
            }
            assert forall|a: int|
                0 <= a < srcidx.len() && ((#[trigger] kept@[a])@).0.0 == issue_type
                    implies exists|c: &Code| (*c)@ == kept@[a]@.0 && call_ensures(
                filter,
                (c,),
                false,
            ) by {
                if a < old_kept.len() {
                    assert(kept@[a] == old_kept[a]);
                } else {
                    assert(!discard && type_matches);
                    assert(call_ensures(filter, (&rec.code,), false));
                    assert(kept@[a]@ == orig[i as int]);
                }
            }
        }
        i += 1;
    }
    proof {
        assert forall|a: int, b: int|
            0 <= a < b < records_view(kept@).len() implies (#[trigger] records_view(kept@)[a]).0
            != (#[trigger] records_view(kept@)[b]).0 by {
            assert(records_view(kept@)[a] == kept@[a]@);
            assert(records_view(kept@)[b] == kept@[b]@);
            assert(kept@[a]@ == orig[srcidx[a]]);
            assert(kept@[b]@ == orig[srcidx[b]]);
            assert(srcidx[a] < srcidx[b]);
        }
    }
    *dash = Dashboard { issues: kept };
    proof {
        assert forall|k: int| 0 <= k < dash@.len() implies orig.contains(#[trigger] dash@[k]) by {
            assert(dash@[k] == orig[srcidx[k]]);
        }
        assert forall|j: int|
            0 <= j < orig.len() && (#[trigger] orig[j]).0.0 != issue_type implies dash@.contains(
            orig[j],
        ) by {
            let a = choose|a: int| 0 <= a < srcidx.len() && #[trigger] srcidx[a] == j;
            assert(dash@[a] == orig[j]);
        }
        assert forall|j: int|
            0 <= j < orig.len() && (#[trigger] orig[j]).0.0 == issue_type && !dash@.contains(
            orig[j],
        ) implies exists|c: &Code| (*c)@ == orig[j].0 && call_ensures(filter, (c,), true) by {
            assert(!(exists|a: int| 0 <= a < srcidx.len() && #[trigger] srcidx[a] == j)) by {
                if exists|a: int| 0 <= a < srcidx.len() && #[trigger] srcidx[a] == j {
                    let a = choose|a: int| 0 <= a < srcidx.len() && #[trigger] srcidx[a] == j;
                    assert(dash@[a] == orig[j]);
                    assert(dash@.contains(orig[j]));
                }
            }
        }
        assert forall|k: int|
            0 <= k < dash@.len() && (#[trigger] dash@[k]).0.0 == issue_type implies exists|
            c: &Code,
        | (*c)@ == dash@[k].0 && call_ensures(filter, (c,), false) by {
            assert(dash@[k] == kept@[k]@);
        }
    }
}

} // verus!
