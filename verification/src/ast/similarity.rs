use vstd::prelude::*;

use crate::ast::rows::{CallRow, CallSetRow, FingerprintRow, FunctionRow, TableBatch};
use crate::sql::ast::strings_view;

verus! {

/// The (file, caller) pair a call is grouped by.
pub open spec fn call_key(c: CallRow) -> (Seq<char>, Seq<char>) {
    (c.file@, c.caller@)
}

/// The (file, caller) pairs of the calls that have a caller, each once, in order of first
/// appearance.
pub open spec fn caller_groups(calls: Seq<CallRow>) -> Seq<(Seq<char>, Seq<char>)>
    decreases calls.len(),
{
    if calls.len() == 0 {
        Seq::empty()
    } else {
        let g = caller_groups(calls.drop_last());
        let c = calls.last();
        if c.caller@.len() == 0 || g.contains(call_key(c)) {
            g
        } else {
            g.push(call_key(c))
        }
    }
}

/// The distinct callees of a (file, caller) pair, in order of first appearance.
pub open spec fn group_callees(calls: Seq<CallRow>, key: (Seq<char>, Seq<char>)) -> Seq<Seq<char>>
    decreases calls.len(),
{
    if calls.len() == 0 {
        Seq::empty()
    } else {
        let v = group_callees(calls.drop_last(), key);
        let c = calls.last();
        if call_key(c) == key && !v.contains(c.callee@) {
            v.push(c.callee@)
        } else {
            v
        }
    }
}

/// The line of the first function named `name` in `file`, or 0.
pub open spec fn function_line(fs: Seq<FunctionRow>, file: Seq<char>, name: Seq<char>) -> usize
    decreases fs.len(),
{
    if fs.len() == 0 {
        0
    } else if fs[0].file@ == file && fs[0].name@ == name {
        fs[0].line
    } else {
        function_line(fs.drop_first(), file, name)
    }
}

pub open spec fn callset_view(r: CallSetRow) -> (Seq<char>, usize, Seq<char>, Seq<char>) {
    (r.file@, r.line, r.name@, r.callee@)
}

pub open spec fn callsets_view(v: Seq<CallSetRow>) -> Seq<(Seq<char>, usize, Seq<char>, Seq<char>)> {
    v.map_values(|r: CallSetRow| callset_view(r))
}

/// One row per distinct callee of a group.
pub open spec fn group_rows(
    calls: Seq<CallRow>,
    fs: Seq<FunctionRow>,
    g: (Seq<char>, Seq<char>),
) -> Seq<(Seq<char>, usize, Seq<char>, Seq<char>)> {
    group_callees(calls, g).map_values(
        |callee: Seq<char>| (g.0, function_line(fs, g.0, g.1), g.1, callee),
    )
}

/// The rows of the given groups, one group after the other.
pub open spec fn rows_of_groups(
    calls: Seq<CallRow>,
    fs: Seq<FunctionRow>,
    gs: Seq<(Seq<char>, Seq<char>)>,
) -> Seq<(Seq<char>, usize, Seq<char>, Seq<char>)>
    decreases gs.len(),
{
    if gs.len() == 0 {
        Seq::empty()
    } else {
        rows_of_groups(calls, fs, gs.drop_last()) + group_rows(calls, fs, gs.last())
    }
}

/// The call-set rows of a batch: each distinct callee of each caller.
pub open spec fn expected_callsets(
    calls: Seq<CallRow>,
    fs: Seq<FunctionRow>,
) -> Seq<(Seq<char>, usize, Seq<char>, Seq<char>)> {
    rows_of_groups(calls, fs, caller_groups(calls))
}

/// The fingerprint with its distinct-callee count filled in when its function makes calls.
pub open spec fn counted(old_fp: FingerprintRow, fp: FingerprintRow, calls: Seq<CallRow>) -> bool {
    let key = (old_fp.file@, old_fp.name@);
    &&& fp.file@ == old_fp.file@
    &&& fp.line == old_fp.line
    &&& fp.name@ == old_fp.name@
    &&& fp.param_count == old_fp.param_count
    &&& fp.complexity == old_fp.complexity
    &&& fp.nesting_depth == old_fp.nesting_depth
    &&& fp.branch_count == old_fp.branch_count
    &&& fp.loop_count == old_fp.loop_count
    &&& fp.call_count == old_fp.call_count
    &&& fp.return_count == old_fp.return_count
    &&& fp.stmt_count == old_fp.stmt_count
    &&& fp.has_error_handling == old_fp.has_error_handling
    &&& fp.unique_callee_count == if caller_groups(calls).contains(key) {
        group_callees(calls, key).len() as usize
    } else {
        old_fp.unique_callee_count
    }
}

proof fn lemma_callees_need_group(calls: Seq<CallRow>, key: (Seq<char>, Seq<char>))
    requires
        key.1.len() > 0,
        !caller_groups(calls).contains(key),
    ensures
        group_callees(calls, key).len() == 0,
    decreases calls.len(),
{
    if calls.len() > 0 {
        let g = caller_groups(calls.drop_last());
        let c = calls.last();
        if g.contains(key) {
            let k = choose|k: int| 0 <= k < g.len() && g[k] == key;
            assert(caller_groups(calls)[k] == key);
            assert(caller_groups(calls).contains(key));
        }
        if call_key(c) == key {
            assert(caller_groups(calls) == g.push(key));
            assert(caller_groups(calls)[g.len() as int] == key);
            assert(caller_groups(calls).contains(key));
        }
        lemma_callees_need_group(calls.drop_last(), key);
    }
}

proof fn lemma_groups_have_callers(calls: Seq<CallRow>)
    ensures
        forall|k: int|
            0 <= k < caller_groups(calls).len() ==> (#[trigger] caller_groups(calls)[k]).1.len()
                > 0,
        forall|p: int, q: int|
            0 <= p < q < caller_groups(calls).len() ==> #[trigger] caller_groups(calls)[p]
                != #[trigger] caller_groups(calls)[q],
    decreases calls.len(),
{
    if calls.len() > 0 {
        lemma_groups_have_callers(calls.drop_last());
        let g = caller_groups(calls.drop_last());
        let c = calls.last();
        let h = caller_groups(calls);
        if !(c.caller@.len() == 0 || g.contains(call_key(c))) {
            assert(h == g.push(call_key(c)));
            assert forall|k: int| 0 <= k < h.len() implies (#[trigger] h[k]).1.len() > 0 by {
                if k < g.len() {
                    assert(h[k] == g[k]);
                }
            }
            assert forall|p: int, q: int| 0 <= p < q < h.len() implies #[trigger] h[p]
                != #[trigger] h[q] by {
                assert(h[p] == g[p]);
                if q < g.len() {
                    assert(h[q] == g[q]);
                } else {
                    if h[p] == h[q] {
                        assert(g.contains(call_key(c)));
                    }
                }
            }
        }
    }
}

/// The number of call-set rows of the function `name` in `file`.
pub open spec fn rows_for(
    rows: Seq<(Seq<char>, usize, Seq<char>, Seq<char>)>,
    key: (Seq<char>, Seq<char>),
) -> nat
    decreases rows.len(),
{
    if rows.len() == 0 {
        0
    } else {
        rows_for(rows.drop_last(), key) + if rows.last().0 == key.0 && rows.last().2 == key.1 {
            1nat
        } else {
            0nat
        }
    }
}

proof fn lemma_rows_for_append(
    a: Seq<(Seq<char>, usize, Seq<char>, Seq<char>)>,
    b: Seq<(Seq<char>, usize, Seq<char>, Seq<char>)>,
    key: (Seq<char>, Seq<char>),
)
    ensures
        rows_for(a + b, key) == rows_for(a, key) + rows_for(b, key),
    decreases b.len(),
{
    if b.len() == 0 {
        assert(a + b =~= a);
    } else {
        assert((a + b).drop_last() =~= a + b.drop_last());
        assert((a + b).last() == b.last());
        lemma_rows_for_append(a, b.drop_last(), key);
    }
}

proof fn lemma_rows_for_group(
    calls: Seq<CallRow>,
    fs: Seq<FunctionRow>,
    g: (Seq<char>, Seq<char>),
    key: (Seq<char>, Seq<char>),
    n: int,
)
    requires
        0 <= n <= group_callees(calls, g).len(),
    ensures
        rows_for(group_rows(calls, fs, g).subrange(0, n), key) == if g == key {
            n as nat
        } else {
            0nat
        },
    decreases n,
{
    let rows = group_rows(calls, fs, g);
    if n > 0 {
        lemma_rows_for_group(calls, fs, g, key, n - 1);
        assert(rows.subrange(0, n).drop_last() =~= rows.subrange(0, n - 1));
        assert(rows.subrange(0, n).last() == rows[n - 1]);
        assert(rows[n - 1].0 == g.0 && rows[n - 1].2 == g.1);
    }
}

proof fn lemma_rows_for_groups(
    calls: Seq<CallRow>,
    fs: Seq<FunctionRow>,
    gs: Seq<(Seq<char>, Seq<char>)>,
    key: (Seq<char>, Seq<char>),
)
    requires
        forall|p: int, q: int| 0 <= p < q < gs.len() ==> #[trigger] gs[p] != #[trigger] gs[q],
    ensures
        rows_for(rows_of_groups(calls, fs, gs), key) == if gs.contains(key) {
            group_callees(calls, key).len()
        } else {
            0nat
        },
    decreases gs.len(),
{
    if gs.len() > 0 {
        let init = gs.drop_last();
        let g = gs.last();
        lemma_rows_for_groups(calls, fs, init, key);
        lemma_rows_for_append(rows_of_groups(calls, fs, init), group_rows(calls, fs, g), key);
        let rows = group_rows(calls, fs, g);
        lemma_rows_for_group(calls, fs, g, key, rows.len() as int);
        assert(rows.subrange(0, rows.len() as int) =~= rows);
        if g == key {
            assert(!init.contains(key)) by {
                if init.contains(key) {
                    let k = choose|k: int| 0 <= k < init.len() && init[k] == key;
                    assert(gs[k] == gs[gs.len() - 1]);
                }
            }
            assert(gs[gs.len() - 1] == key);
        } else {
            assert(gs.contains(key) == init.contains(key)) by {
                if gs.contains(key) {
                    let k = choose|k: int| 0 <= k < gs.len() && gs[k] == key;
                    assert(init[k] == key);
                }
                if init.contains(key) {
                    let k = choose|k: int| 0 <= k < init.len() && init[k] == key;
                    assert(gs[k] == key);
                }
            }
        }
    }
}

proof fn lemma_group_callees_len(calls: Seq<CallRow>, key: (Seq<char>, Seq<char>))
    ensures
        group_callees(calls, key).len() <= calls.len(),
    decreases calls.len(),
{
    if calls.len() > 0 {
        lemma_group_callees_len(calls.drop_last(), key);
    }
}

/// The callees recorded for a caller are distinct: each is recorded once, however often
/// it is called.
pub proof fn lemma_group_callees_distinct(calls: Seq<CallRow>, key: (Seq<char>, Seq<char>))
    ensures
        forall|p: int, q: int|
            0 <= p < q < group_callees(calls, key).len() ==> #[trigger] group_callees(calls, key)[p]
                != #[trigger] group_callees(calls, key)[q],
    decreases calls.len(),
{
    if calls.len() > 0 {
        lemma_group_callees_distinct(calls.drop_last(), key);
        let v = group_callees(calls.drop_last(), key);
        let w = group_callees(calls, key);
        let c = calls.last();
        if call_key(c) == key && !v.contains(c.callee@) {
            assert forall|p: int, q: int| 0 <= p < q < w.len() implies #[trigger] w[p]
                != #[trigger] w[q] by {
                assert(w[p] == v[p]);
                if q < v.len() {
                    assert(w[q] == v[q]);
                } else if w[p] == w[q] {
                    assert(v.contains(c.callee@));
                }
            }
        }
    }
}

/// After `extract_callsets`, the distinct-callee count in a function's fingerprint is the
/// number of call-set rows recorded for that function, when the function makes calls.
pub proof fn lemma_callee_count_matches_callsets(
    calls: Seq<CallRow>,
    fs: Seq<FunctionRow>,
    old_fp: FingerprintRow,
    new_fp: FingerprintRow,
)
    requires
        calls.len() <= usize::MAX,
        counted(old_fp, new_fp, calls),
        caller_groups(calls).contains((old_fp.file@, old_fp.name@)),
    ensures
        new_fp.unique_callee_count == rows_for(
            expected_callsets(calls, fs),
            (new_fp.file@, new_fp.name@),
        ),
{
    let key = (old_fp.file@, old_fp.name@);
    lemma_groups_have_callers(calls);
    lemma_rows_for_groups(calls, fs, caller_groups(calls), key);
    lemma_group_callees_len(calls, key);
}

fn same_key(c: &CallRow, file: &String, caller: &String) -> (r: bool)
    ensures
        r == (call_key(*c) == (file@, caller@)),
{
    c.file == *file && c.caller == *caller
}

/// Records, for each function that makes calls, one call-set row per distinct callee,
/// and its number of distinct callees in its fingerprint.
pub fn extract_callsets(batch: &mut TableBatch)
    ensures
        final(batch).current_file == old(batch).current_file,
        final(batch).functions == old(batch).functions,
        final(batch).calls == old(batch).calls,
        final(batch).imports == old(batch).imports,
        final(batch).structs == old(batch).structs,
        final(batch).variables == old(batch).variables,
        final(batch).comments == old(batch).comments,
        callsets_view(final(batch).callsets@) == callsets_view(old(batch).callsets@)
            + expected_callsets(old(batch).calls@, old(batch).functions@),
        final(batch).fingerprints@.len() == old(batch).fingerprints@.len(),
        forall|i: int|
            0 <= i < old(batch).fingerprints@.len() ==> counted(
                old(batch).fingerprints@[i],
                #[trigger] final(batch).fingerprints@[i],
                old(batch).calls@,
            ),
{
    let ghost calls = batch.calls@;
    let mut files: Vec<String> = Vec::new();
    let mut callers: Vec<String> = Vec::new();
    let mut callees: Vec<Vec<String>> = Vec::new();
    let mut last: usize = 0;
    let mut i: usize = 0;
    while i < batch.calls.len()
        invariant
            calls == batch.calls@,
            i <= calls.len(),
            files@.len() == callers@.len(),
            callees@.len() == files@.len(),
            caller_groups(calls.subrange(0, i as int)).len() == files@.len(),
            forall|k: int|
                0 <= k < files@.len() ==> #[trigger] caller_groups(calls.subrange(0, i as int))[k]
                    == (files@[k]@, callers@[k]@),
            forall|k: int|
                0 <= k < files@.len() ==> strings_view(#[trigger] callees@[k]@) == group_callees(
                    calls.subrange(0, i as int),
                    (files@[k]@, callers@[k]@),
                ),
        decreases calls.len() - i,
    {
        let ghost pre = calls.subrange(0, i as int);
        let ghost cur = calls.subrange(0, i + 1);
        proof {
            assert(cur.drop_last() =~= pre);
            assert(cur.last() == calls[i as int]);
            lemma_groups_have_callers(pre);
        }
        let c = &batch.calls[i];
        if c.caller.as_str().is_empty() {
            proof {
                assert(caller_groups(cur) == caller_groups(pre));
                assert forall|k: int| 0 <= k < files@.len() implies strings_view(
                    #[trigger] callees@[k]@,
                ) == group_callees(cur, (files@[k]@, callers@[k]@)) by {
                    assert(caller_groups(pre)[k].1.len() > 0);
                }
            }
        } else {
            // Find the group of this call: first try the group of the previous call.
            let found = if last < files.len() && same_key(c, &files[last], &callers[last]) {
                last
            } else {
                find_group(&files, &callers, &c.file, &c.caller)
            };
            proof {
                if found == files@.len() {
                    assert(!caller_groups(pre).contains(call_key(*c)));
                }
            }
            if found < files.len() {
                proof {
                    assert(caller_groups(pre)[found as int] == call_key(*c));
                    assert(caller_groups(pre).contains(call_key(*c)));
                    assert(caller_groups(cur) == caller_groups(pre));
                }
                let mut present = false;
                let mut t: usize = 0;
                while t < callees[found].len()
                    invariant
                        found < callees@.len(),
                        t <= callees@[found as int]@.len(),
                        present ==> strings_view(callees@[found as int]@).contains(c.callee@),
                        !present ==> forall|x: int|
                            0 <= x < t ==> callees@[found as int]@[x]@ != c.callee@,
                    decreases callees@[found as int]@.len() - t,
                {
                    if callees[found][t] == c.callee {
                        assert(strings_view(callees@[found as int]@)[t as int] == c.callee@);
                        present = true;
                    }
                    t = t + 1;
                }
                let ghost before = callees@;
                if !present {
                    proof {
                        assert(!strings_view(callees@[found as int]@).contains(c.callee@));
                    }
                    callees[found].push(c.callee.clone());
                    proof {
                        assert(strings_view(callees@[found as int]@) =~= strings_view(
                            before[found as int]@,
                        ).push(c.callee@));
                    }
                }
                proof {
                    assert forall|k: int| 0 <= k < files@.len() implies strings_view(
                        #[trigger] callees@[k]@,
                    ) == group_callees(cur, (files@[k]@, callers@[k]@)) by {
                        if k != found {
                            assert(callees@[k] == before[k]);
                            assert(caller_groups(pre)[k] != caller_groups(pre)[found as int]);
                        }
                    }
                }
                last = found;
            } else {
                proof {
                    assert(!caller_groups(pre).contains(call_key(*c)));
                    lemma_callees_need_group(pre, call_key(*c));
                }
                let ghost before = callees@;
                files.push(c.file.clone());
                callers.push(c.caller.clone());
                let mut first: Vec<String> = Vec::new();
                first.push(c.callee.clone());
                callees.push(first);
                proof {
                    assert(caller_groups(cur) == caller_groups(pre).push(call_key(*c)));
                    assert(strings_view(callees@[files@.len() - 1]@) =~= seq![c.callee@]);
                    assert(group_callees(pre, call_key(*c)) =~= Seq::<Seq<char>>::empty());
                    assert forall|k: int| 0 <= k < files@.len() implies strings_view(
                        #[trigger] callees@[k]@,
                    ) == group_callees(cur, (files@[k]@, callers@[k]@)) by {
                        if k < files@.len() - 1 {
                            assert(callees@[k] == before[k]);
                            assert(caller_groups(pre)[k] != call_key(*c));
                        }
                    }
                    assert forall|k: int| 0 <= k < files@.len() implies #[trigger] caller_groups(
                        cur,
                    )[k] == (files@[k]@, callers@[k]@) by {}
                }
                last = files.len() - 1;
            }
        }
        i = i + 1;
    }
    proof {
        assert(calls.subrange(0, calls.len() as int) =~= calls);
    }
    // The call-set rows.
    let ghost fs = batch.functions@;
    let ghost groups = caller_groups(calls);
    let mut sets: Vec<CallSetRow> = Vec::new();
    let mut g: usize = 0;
    proof {
        assert(groups.subrange(0, 0) =~= Seq::<(Seq<char>, Seq<char>)>::empty());
        assert(callsets_view(sets@) =~= rows_of_groups(calls, fs, groups.subrange(0, 0)));
    }
    while g < files.len()
        invariant
            calls == batch.calls@,
            fs == batch.functions@,
            groups == caller_groups(calls),
            groups.len() == files@.len(),
            files@.len() == callers@.len(),
            callees@.len() == files@.len(),
            forall|k: int| 0 <= k < files@.len() ==> #[trigger] groups[k] == (files@[k]@, callers@[k]@),
            forall|k: int|
                0 <= k < files@.len() ==> strings_view(#[trigger] callees@[k]@) == group_callees(
                    calls,
                    (files@[k]@, callers@[k]@),
                ),
            g <= files@.len(),
            callsets_view(sets@) == rows_of_groups(calls, fs, groups.subrange(0, g as int)),
        decreases files@.len() - g,
    {
        let line = function_line_of(&batch.functions, &files[g], &callers[g]);
        let ghost start = callsets_view(sets@);
        let ghost key = (files@[g as int]@, callers@[g as int]@);
        let mut t: usize = 0;
        while t < callees[g].len()
            invariant
                g < callees@.len(),
                g < files@.len(),
                g < callers@.len(),
                line == function_line(fs, key.0, key.1),
                key == (files@[g as int]@, callers@[g as int]@),
                t <= callees@[g as int]@.len(),
                callsets_view(sets@) == start + strings_view(
                    callees@[g as int]@,
                ).subrange(0, t as int).map_values(
                    |callee: Seq<char>| (key.0, line, key.1, callee),
                ),
            decreases callees@[g as int]@.len() - t,
        {
            let row = CallSetRow {
                file: files[g].clone(),
                line,
                name: callers[g].clone(),
                callee: callees[g][t].clone(),
            };
            assert(callset_view(row) == (key.0, line, key.1, strings_view(
                callees@[g as int]@,
            )[t as int]));
            let ghost prev = sets@;
            sets.push(row);
            proof {
                let cs = strings_view(callees@[g as int]@);
                let f = |callee: Seq<char>| (key.0, line, key.1, callee);
                assert(callsets_view(sets@) =~= callsets_view(prev).push(callset_view(row)));
                assert(cs.subrange(0, t + 1).map_values(f) =~= cs.subrange(0, t as int).map_values(
                    f,
                ).push(f(cs[t as int])));
            }
            assert(callsets_view(sets@) =~= start + strings_view(
                callees@[g as int]@,
            ).subrange(0, t + 1).map_values(|callee: Seq<char>| (key.0, line, key.1, callee)));
            t = t + 1;
        }
        proof {
            assert(strings_view(callees@[g as int]@).subrange(
                0,
                callees@[g as int]@.len() as int,
            ) =~= strings_view(callees@[g as int]@));
            assert(groups.subrange(0, g + 1).drop_last() =~= groups.subrange(0, g as int));
            assert(groups.subrange(0, g + 1).last() == key);
            assert(callsets_view(sets@) =~= rows_of_groups(calls, fs, groups.subrange(0, g + 1)));
        }
        g = g + 1;
    }
    proof {
        assert(groups.subrange(0, groups.len() as int) =~= groups);
    }
    // The distinct-callee counts.
    let ghost old_fps = batch.fingerprints@;
    let mut out: Vec<FingerprintRow> = Vec::new();
    let mut i: usize = 0;
    while i < batch.fingerprints.len()
        invariant
            calls == batch.calls@,
            groups == caller_groups(calls),
            groups.len() == files@.len(),
            files@.len() == callers@.len(),
            callees@.len() == files@.len(),
            forall|k: int| 0 <= k < files@.len() ==> #[trigger] groups[k] == (files@[k]@, callers@[k]@),
            forall|k: int|
                0 <= k < files@.len() ==> strings_view(#[trigger] callees@[k]@) == group_callees(
                    calls,
                    (files@[k]@, callers@[k]@),
                ),
            old_fps == batch.fingerprints@,
            i <= old_fps.len(),
            out@.len() == i,
            forall|k: int| 0 <= k < i ==> counted(old_fps[k], #[trigger] out@[k], calls),
        decreases old_fps.len() - i,
    {
        let fp = &batch.fingerprints[i];
        let k = find_group(&files, &callers, &fp.file, &fp.name);
        let count = if k < files.len() {
            assert(groups[k as int] == (fp.file@, fp.name@));
            assert(groups.contains((fp.file@, fp.name@)));
            assert(strings_view(callees@[k as int]@).len() == callees@[k as int]@.len());
            callees[k].len()
        } else {
            assert(!groups.contains((fp.file@, fp.name@)));
            fp.unique_callee_count
        };
        out.push(
            FingerprintRow {
                file: fp.file.clone(),
                line: fp.line,
                name: fp.name.clone(),
                param_count: fp.param_count,
                complexity: fp.complexity,
                nesting_depth: fp.nesting_depth,
                branch_count: fp.branch_count,
                loop_count: fp.loop_count,
                call_count: fp.call_count,
                unique_callee_count: count,
                return_count: fp.return_count,
                stmt_count: fp.stmt_count,
                has_error_handling: fp.has_error_handling,
            },
        );
        i = i + 1;
    }
    let ghost old_sets = batch.callsets@;
    batch.callsets.append(&mut sets);
    assert(callsets_view(batch.callsets@) =~= callsets_view(old_sets) + expected_callsets(
        calls,
        fs,
    ));
    batch.fingerprints = out;
}

/// The index of the group (`file`, `caller`), or the number of groups when there is none.
fn find_group(files: &Vec<String>, callers: &Vec<String>, file: &String, caller: &String) -> (k:
    usize)
    requires
        files@.len() == callers@.len(),
    ensures
        k <= files@.len(),
        k < files@.len() ==> (files@[k as int]@, callers@[k as int]@) == (file@, caller@),
        k == files@.len() ==> forall|x: int|
            0 <= x < files@.len() ==> (files@[x]@, callers@[x]@) != (file@, caller@),
{
    let mut k: usize = 0;
    while k < files.len()
        invariant
            files@.len() == callers@.len(),
            k <= files@.len(),
            forall|x: int| 0 <= x < k ==> (files@[x]@, callers@[x]@) != (file@, caller@),
        decreases files@.len() - k,
    {
        if files[k] == *file && callers[k] == *caller {
            return k;
        }
        k = k + 1;
    }
    k
}

fn function_line_of(fs: &Vec<FunctionRow>, file: &String, name: &String) -> (line: usize)
    ensures
        line == function_line(fs@, file@, name@),
{
    let mut k: usize = 0;
    assert(fs@.skip(0) =~= fs@);
    while k < fs.len()
        invariant
            k <= fs@.len(),
            function_line(fs@, file@, name@) == function_line(fs@.skip(k as int), file@, name@),
        decreases fs@.len() - k,
    {
        assert(fs@.skip(k as int).len() > 0);
        assert(fs@.skip(k as int)[0] == fs@[k as int]);
        if fs[k].file == *file && fs[k].name == *name {
            return fs[k].line;
        }
        assert(fs@.skip(k as int).drop_first() =~= fs@.skip(k + 1));
        k = k + 1;
    }
    assert(fs@.skip(k as int).len() == 0);
    0
}

} // verus!
