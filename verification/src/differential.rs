//! Holding two engines' outcomes to each other, case for case.
//!
//! An outcome list pairs a case's name with a line describing what the engine did with it. A
//! clean comparison is a measurement only if the comparison can see every kind of
//! divergence: a case whose outcome differs, a case one side never ran, and a count that
//! disagrees.

use vstd::prelude::*;

verus! {

/// One way two outcome lists differ.
#[derive(Debug)]
pub enum Divergence {
    /// Both ran the case and disagree.
    Changed { case: String, native: String, web: String },
    /// The web side has no outcome for the case.
    Missing { case: String },
    /// The lists have different numbers of cases.
    Count { native: usize, web: usize },
}

/// The mathematical value of a [`Divergence`].
pub enum DivergenceV {
    Changed { case: Seq<char>, native: Seq<char>, web: Seq<char> },
    Missing { case: Seq<char> },
    Count { native: nat, web: nat },
}

impl View for Divergence {
    type V = DivergenceV;

    open spec fn view(&self) -> DivergenceV {
        match self {
            Divergence::Changed { case, native, web } => DivergenceV::Changed { case: case@, native: native@, web: web@ },
            Divergence::Missing { case } => DivergenceV::Missing { case: case@ },
            Divergence::Count { native, web } => DivergenceV::Count { native: *native as nat, web: *web as nat },
        }
    }
}

/// An outcome list, as values.
pub open spec fn outcomes_view(s: Seq<(String, String)>) -> Seq<(Seq<char>, Seq<char>)> {
    s.map_values(|p: (String, String)| (p.0@, p.1@))
}

/// The outcome the list records for `case`: the last one, when it records several.
pub open spec fn outcome_for(s: Seq<(Seq<char>, Seq<char>)>, case: Seq<char>) -> Option<Seq<char>>
    decreases s.len(),
{
    if s.len() == 0 {
        None
    } else if s.last().0 == case {
        Some(s.last().1)
    } else {
        outcome_for(s.drop_last(), case)
    }
}

/// How many different cases the list records.
pub open spec fn case_count(s: Seq<(Seq<char>, Seq<char>)>) -> nat
    decreases s.len(),
{
    if s.len() == 0 {
        0
    } else {
        let rest = s.drop_first();
        (if exists|j: int| 0 <= j < rest.len() && #[trigger] rest[j].0 == s[0].0 { 0nat } else { 1nat })
            + case_count(rest)
    }
}

/// What one native outcome contributes.
pub open spec fn divergence_of(case: Seq<char>, left: Seq<char>, web: Seq<(Seq<char>, Seq<char>)>) -> Seq<DivergenceV> {
    match outcome_for(web, case) {
        Some(right) => if right == left {
            Seq::empty()
        } else {
            seq![DivergenceV::Changed { case, native: left, web: right }]
        },
        None => seq![DivergenceV::Missing { case }],
    }
}

/// The divergences of every native outcome, in order.
pub open spec fn case_divergences(native: Seq<(Seq<char>, Seq<char>)>, web: Seq<(Seq<char>, Seq<char>)>) -> Seq<DivergenceV>
    decreases native.len(),
{
    if native.len() == 0 {
        Seq::empty()
    } else {
        case_divergences(native.drop_last(), web) + divergence_of(native.last().0, native.last().1, web)
    }
}

/// Every way two outcome lists differ: each native case the web side disagrees on or never
/// ran, in native order, then the counts when the web side records a different number of
/// cases than the native list holds.
pub open spec fn all_divergences(native: Seq<(Seq<char>, Seq<char>)>, web: Seq<(Seq<char>, Seq<char>)>) -> Seq<DivergenceV> {
    case_divergences(native, web) + if case_count(web) != native.len() {
        seq![DivergenceV::Count { native: native.len(), web: case_count(web) }]
    } else {
        Seq::empty()
    }
}

/// The last outcome `web[..end]` records for `case`.
fn find_outcome<'a>(web: &'a [(String, String)], end: usize, case: &String) -> (r: Option<&'a String>)
    requires
        end <= web@.len(),
    ensures
        match r {
            Some(s) => outcome_for(outcomes_view(web@).take(end as int), case@) == Some(s@),
            None => outcome_for(outcomes_view(web@).take(end as int), case@) is None,
        },
{
    let ghost w = outcomes_view(web@);
    let mut i: usize = end;
    while i > 0
        invariant
            i <= end <= web@.len(),
            w == outcomes_view(web@),
            outcome_for(w.take(end as int), case@) == outcome_for(w.take(i as int), case@),
        decreases i,
    {
        let ghost t = w.take(i as int);
        assert(t.last() == (web@[i - 1].0@, web@[i - 1].1@));
        assert(t.drop_last() =~= w.take(i - 1));
        if web[i - 1].0 == *case {
            return Some(&web[i - 1].1);
        }
        i -= 1;
    }
    None
}

/// Whether `web[from..]` records `case`.
fn records(web: &[(String, String)], from: usize, case: &String) -> (r: bool)
    requires
        from <= web@.len(),
    ensures
        r <==> exists|j: int| from <= j < web@.len() && #[trigger] web@[j].0@ == case@,
{
    let mut j: usize = from;
    while j < web.len()
        invariant
            from <= j <= web@.len(),
            forall|k: int| from <= k < j ==> #[trigger] web@[k].0@ != case@,
        decreases web.len() - j,
    {
        if web[j].0 == *case {
            return true;
        }
        j += 1;
    }
    false
}

/// How many different cases `web` records.
fn count_cases(web: &[(String, String)]) -> (n: usize)
    ensures
        n == case_count(outcomes_view(web@)),
{
    let ghost w = outcomes_view(web@);
    let mut n: usize = 0;
    let mut i: usize = web.len();
    while i > 0
        invariant
            i <= web@.len(),
            w == outcomes_view(web@),
            n <= web@.len() - i,
            n == case_count(w.subrange(i as int, w.len() as int)),
        decreases i,
    {
        let ghost tail = w.subrange(i - 1, w.len() as int);
        assert(tail.drop_first() =~= w.subrange(i as int, w.len() as int));
        let seen = records(web, i, &web[i - 1].0);
        proof {
            let rest = tail.drop_first();
            if seen {
                let j = choose|j: int| i <= j < web@.len() && #[trigger] web@[j].0@ == web@[i - 1].0@;
                assert(rest[j - i].0 == tail[0].0);
            } else {
                assert forall|j: int| 0 <= j < rest.len() implies #[trigger] rest[j].0 != tail[0].0 by {
                    assert(rest[j] == w[j + i]);
                }
            }
        }
        if !seen {
            n += 1;
        }
        i -= 1;
    }
    assert(w.subrange(0, w.len() as int) =~= w);
    n
}

fn copy_string(s: &String) -> (r: String)
    ensures
        r@ == s@,
{
    s.clone()
}

/// Every way two outcome lists differ, by case: see [`all_divergences`].
pub fn divergences(native: &[(String, String)], web: &[(String, String)]) -> (r: Vec<Divergence>)
    ensures
        r@.map_values(|d: Divergence| d@) == all_divergences(outcomes_view(native@), outcomes_view(web@)),
{
    let ghost nv = outcomes_view(native@);
    let ghost wv = outcomes_view(web@);
    let mut out: Vec<Divergence> = Vec::new();
    let mut i: usize = 0;
    while i < native.len()
        invariant
            i <= native@.len(),
            nv == outcomes_view(native@),
            wv == outcomes_view(web@),
            out@.map_values(|d: Divergence| d@) == case_divergences(nv.take(i as int), wv),
        decreases native.len() - i,
    {
        let ghost prev = out@;
        let case = &native[i].0;
        let left = &native[i].1;
        let found = find_outcome(web, web.len(), case);
        assert(wv.take(web@.len() as int) =~= wv);
        let ghost t = nv.take(i + 1);
        assert(t.drop_last() =~= nv.take(i as int));
        assert(t.last() == (case@, left@));
        match found {
            Some(right) => {
                if *right != *left {
                    out.push(Divergence::Changed {
                        case: copy_string(case),
                        native: copy_string(left),
                        web: copy_string(right),
                    });
                }
            },
            None => {
                out.push(Divergence::Missing { case: copy_string(case) });
            },
        }
        assert(out@.map_values(|d: Divergence| d@) =~= prev.map_values(|d: Divergence| d@)
            + divergence_of(case@, left@, wv));
        i += 1;
    }
    assert(nv.take(native@.len() as int) =~= nv);
    let cases = count_cases(web);
    if cases != native.len() {
        let ghost prev = out@;
        out.push(Divergence::Count { native: native.len(), web: cases });
        assert(out@.map_values(|d: Divergence| d@) =~= prev.map_values(|d: Divergence| d@)
            + seq![DivergenceV::Count { native: nv.len(), web: case_count(wv) }]);
    } else {
        assert(out@.map_values(|d: Divergence| d@) =~= out@.map_values(|d: Divergence| d@) + Seq::<DivergenceV>::empty());
    }
    out
}

} // verus!
