use vstd::prelude::*;

use crate::json::paths::{collect_paths, leaf_str};
use crate::strings::{lemma_sorted_same_members_equal, seq_sorted, str_lt};
use crate::value::{wf, JsonModel, JsonValue};

verus! {

/// The outcome of comparing a target document against a reference document:
/// the dotted leaf paths each side lacks, sorted and free of duplicates.
#[derive(PartialEq, Eq, Debug)]
pub struct JsonDiff {
    pub target_file: String,
    pub reference_file: String,
    pub missing_in_target: Vec<String>,
    pub missing_in_reference: Vec<String>,
}

/// One reported path per line; a lone dash when there is nothing to report.
pub open spec fn report_lines(paths: Seq<Seq<char>>) -> Seq<char>
    decreases paths.len(),
{
    if paths.len() == 0 {
        Seq::empty()
    } else {
        paths[0] + "\n"@ + report_lines(paths.drop_first())
    }
}

pub open spec fn report_block(paths: Seq<Seq<char>>) -> Seq<char> {
    if paths.len() == 0 {
        "-\n"@
    } else {
        report_lines(paths)
    }
}

/// The full human-readable comparison report.
pub open spec fn report_text(d: JsonDiff) -> Seq<char> {
    "\nMissing in target ("@ + d.target_file@ + "):\n\n"@ + report_block(
        d.missing_in_target.deep_view(),
    ) + "\nMissing in reference ("@ + d.reference_file@ + "):\n\n"@ + report_block(
        d.missing_in_reference.deep_view(),
    )
}

proof fn lemma_report_lines_push(paths: Seq<Seq<char>>, x: Seq<char>)
    ensures
        report_lines(paths.push(x)) == report_lines(paths) + x + "\n"@,
    decreases paths.len(),
{
    reveal_with_fuel(report_lines, 3);
    if paths.len() == 0 {
        assert(paths.push(x)[0] == x);
        assert(paths.push(x).drop_first() =~= Seq::<Seq<char>>::empty());
        assert(report_lines(paths.push(x)) =~= report_lines(paths) + x + "\n"@);
    } else {
        lemma_report_lines_push(paths.drop_first(), x);
        assert(paths.push(x)[0] == paths[0]);
        assert(paths.push(x).drop_first() =~= paths.drop_first().push(x));
        assert(report_lines(paths.push(x)) =~= report_lines(paths) + x + "\n"@);
    }
}

/// Append one block of the report: each path on a line of its own, or a
/// dash when the list is empty.
fn append_block(out: &mut String, paths: &Vec<String>)
    ensures
        final(out)@ == old(out)@ + report_block(paths.deep_view()),
{
    if paths.len() == 0 {
        out.append("-\n");
        proof {
            assert(paths.deep_view().len() == 0);
        }
        return ;
    }
    let ghost start = out@;
    let ghost dv = paths.deep_view();
    let mut i: usize = 0;
    while i < paths.len()
        invariant
            0 <= i <= paths@.len(),
            dv == paths.deep_view(),
            dv.len() == paths@.len(),
            out@ == start + report_lines(dv.take(i as int)),
        decreases paths@.len() - i,
    {
        proof {
            assert(dv[i as int] == paths@[i as int]@);
            lemma_report_lines_push(dv.take(i as int), dv[i as int]);
            assert(dv.take(i as int).push(dv[i as int]) =~= dv.take(i + 1));
            assert(report_lines(dv.take(0)) =~= Seq::<char>::empty());
        }
        out.append(paths[i].as_str());
        out.append("\n");
        i = i + 1;
    }
    proof {
        assert(dv.take(dv.len() as int) =~= dv);
    }
}

impl JsonDiff {
    /// Whether the two documents disagree at all.
    pub fn is_there_any_difference(&self) -> (b: bool)
        ensures
            b == (self.missing_in_target@.len() > 0 || self.missing_in_reference@.len() > 0),
    {
        self.missing_in_target.len() > 0 || self.missing_in_reference.len() > 0
    }

    /// Render the comparison report.
    pub fn to_report_string(&self) -> (r: String)
        ensures
            r@ == report_text(*self),
    {
        let mut out = ("\nMissing in target (").to_owned();
        out.append(self.target_file.as_str());
        out.append("):\n\n");
        append_block(&mut out, &self.missing_in_target);
        out.append("\nMissing in reference (");
        out.append(self.reference_file.as_str());
        out.append("):\n\n");
        append_block(&mut out, &self.missing_in_reference);
        out
    }
}

/// The sorted list of strings in `a` that do not occur in `b`.
fn sorted_difference(a: &Vec<String>, b: &Vec<String>) -> (r: Vec<String>)
    requires
        seq_sorted(a.deep_view()),
    ensures
        seq_sorted(r.deep_view()),
        forall|y: Seq<char>|
            #[trigger] r.deep_view().contains(y) <==> (a.deep_view().contains(y)
                && !b.deep_view().contains(y)),
{
    let ghost adv = a.deep_view();
    let ghost bdv = b.deep_view();
    let mut r: Vec<String> = Vec::new();
    let mut i: usize = 0;
    while i < a.len()
        invariant
            0 <= i <= a@.len(),
            adv == a.deep_view(),
            bdv == b.deep_view(),
            adv.len() == a@.len(),
            seq_sorted(adv),
            seq_sorted(r.deep_view()),
            forall|y: Seq<char>|
                #[trigger] r.deep_view().contains(y) <==> (adv.take(i as int).contains(y)
                    && !bdv.contains(y)),
        decreases a@.len() - i,
    {
        let ghost rdv = r.deep_view();
        proof {
            assert(adv[i as int] == a@[i as int]@);
            assert(adv.take(i + 1) =~= adv.take(i as int).push(adv[i as int]));
            assert forall|y: Seq<char>|
                #[trigger] adv.take(i + 1).contains(y) <==> (adv.take(i as int).contains(y) || y
                    == adv[i as int]) by {
                if adv.take(i + 1).contains(y) {
                    let w = choose|w: int|
                        0 <= w < adv.take(i + 1).len() && #[trigger] adv.take(i + 1)[w] == y;
                    if w < i {
                        assert(adv.take(i as int)[w] == y);
                    }
                }
                if adv.take(i as int).contains(y) {
                    let w = choose|w: int|
                        0 <= w < adv.take(i as int).len() && #[trigger] adv.take(i as int)[w] == y;
                    assert(adv.take(i + 1)[w] == y);
                }
                if y == adv[i as int] {
                    assert(adv.take(i + 1)[i as int] == y);
                }
            }
        }
        if !crate::strings::contains_string(b, a[i].as_str()) {
            proof {
                assert forall|w: int| 0 <= w < rdv.len() implies str_lt(rdv[w], adv[i as int]) by {
                    assert(rdv.contains(rdv[w]));
                    let u = choose|u: int|
                        0 <= u < i && adv.take(i as int)[u] == rdv[w] && 0 <= u < adv.len();
                    assert(adv.take(i as int)[u] == adv[u]);
                }
            }
            r.push(a[i].as_str().to_owned());
            proof {
                let rdv2 = r.deep_view();
                assert(rdv2 =~= rdv.push(adv[i as int])) by {
                    assert forall|k: int| 0 <= k < rdv2.len() implies rdv2[k] == rdv.push(
                        adv[i as int],
                    )[k] by {
                        assert(rdv2[k] == r@[k]@);
                    }
                }
                assert forall|p: int, q: int| 0 <= p < q < rdv2.len() implies str_lt(
                    rdv2[p],
                    rdv2[q],
                ) by {
                    if q == rdv.len() {
                        assert(str_lt(rdv[p], adv[i as int]));
                    }
                }
                assert forall|y: Seq<char>|
                    #[trigger] rdv2.contains(y) <==> (rdv.contains(y) || y == adv[i as int]) by {
                    if rdv2.contains(y) {
                        let w = choose|w: int| 0 <= w < rdv2.len() && #[trigger] rdv2[w] == y;
                        if w < rdv.len() {
                            assert(rdv[w] == y);
                        }
                    }
                    if rdv.contains(y) {
                        let w = choose|w: int| 0 <= w < rdv.len() && #[trigger] rdv[w] == y;
                        assert(rdv2[w] == y);
                    }
                    if y == adv[i as int] {
                        assert(rdv2[rdv.len() as int] == y);
                    }
                }
                assert forall|y: Seq<char>|
                    #[trigger] rdv2.contains(y) <==> (adv.take(i + 1).contains(y) && !bdv.contains(
                        y,
                    )) by {
                    assert(adv.take(i + 1).contains(y) <==> (adv.take(i as int).contains(y) || y
                        == adv[i as int]));
                    assert(rdv.contains(y) <==> (adv.take(i as int).contains(y) && !bdv.contains(
                        y,
                    )));
                }
            }
        } else {
            proof {
                assert(bdv.contains(adv[i as int]));
                assert forall|y: Seq<char>|
                    #[trigger] rdv.contains(y) <==> (adv.take(i + 1).contains(y) && !bdv.contains(
                        y,
                    )) by {
                    assert(adv.take(i + 1).contains(y) <==> (adv.take(i as int).contains(y) || y
                        == adv[i as int]));
                }
            }
        }
        i = i + 1;
    }
    proof {
        assert(adv.take(adv.len() as int) =~= adv);
    }
    r
}

/// Compare the leaf paths of a reference document and a target document:
/// each output lists, sorted and without duplicates, the dotted paths that
/// occur in one document and not in the other.
pub fn get_missing_paths(
    reference_json: &JsonValue,
    target_json: &JsonValue,
    reference_path: &str,
    target_path: &str,
) -> (d: JsonDiff)
    requires
        wf(reference_json@),
        wf(target_json@),
    ensures
        d.reference_file@ == reference_path@,
        d.target_file@ == target_path@,
        seq_sorted(d.missing_in_target.deep_view()),
        seq_sorted(d.missing_in_reference.deep_view()),
        forall|y: Seq<char>|
            #[trigger] d.missing_in_target.deep_view().contains(y) <==> (leaf_str(
                reference_json@,
                y,
            ) && !leaf_str(target_json@, y)),
        forall|y: Seq<char>|
            #[trigger] d.missing_in_reference.deep_view().contains(y) <==> (leaf_str(
                target_json@,
                y,
            ) && !leaf_str(reference_json@, y)),
{
    let empty = String::new();
    proof {
        assert(crate::strings::dotted(Seq::<Seq<char>>::empty()) == Seq::<char>::empty());
    }
    let mut reference_paths: Vec<String> = Vec::new();
    collect_paths(
        reference_json,
        empty.as_str(),
        true,
        Ghost(Seq::<Seq<char>>::empty()),
        &mut reference_paths,
    );
    let mut target_paths: Vec<String> = Vec::new();
    collect_paths(
        target_json,
        empty.as_str(),
        true,
        Ghost(Seq::<Seq<char>>::empty()),
        &mut target_paths,
    );
    let missing_in_target = sorted_difference(&reference_paths, &target_paths);
    let missing_in_reference = sorted_difference(&target_paths, &reference_paths);
    JsonDiff {
        target_file: target_path.to_owned(),
        reference_file: reference_path.to_owned(),
        missing_in_target,
        missing_in_reference,
    }
}

/// Comparing a document against itself reports nothing: any list whose
/// members are the leaf paths of a document minus the leaf paths of the same
/// document is the empty list.
pub proof fn lemma_diff_reflexive(m: JsonModel, paths: Seq<Seq<char>>)
    requires
        forall|y: Seq<char>| #[trigger] paths.contains(y) <==> (leaf_str(m, y) && !leaf_str(m, y)),
    ensures
        paths == Seq::<Seq<char>>::empty(),
{
    if paths.len() > 0 {
        assert(paths.contains(paths[0]));
    }
    assert(paths =~= Seq::<Seq<char>>::empty());
}

/// Swapping the operands of the comparison swaps the two reports: the paths
/// missing in the target against a reference are exactly the paths missing
/// in the reference once the two documents trade places. Both lists satisfy
/// the same membership condition and both are sorted, so they are equal.
pub proof fn lemma_diff_swap(
    a: JsonModel,
    b: JsonModel,
    missing_ab: Seq<Seq<char>>,
    missing_ba: Seq<Seq<char>>,
)
    requires
        seq_sorted(missing_ab),
        seq_sorted(missing_ba),
        forall|y: Seq<char>|
            #[trigger] missing_ab.contains(y) <==> (leaf_str(a, y) && !leaf_str(b, y)),
        forall|y: Seq<char>|
            #[trigger] missing_ba.contains(y) <==> (leaf_str(a, y) && !leaf_str(b, y)),
    ensures
        missing_ab == missing_ba,
{
    lemma_sorted_same_members_equal(missing_ab, missing_ba);
}

} // verus!
