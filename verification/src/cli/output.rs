//! What the program prints.

use vstd::prelude::*;
use vstd::string::*;

use crate::cli::verify::VerifyResult;
use crate::index::grouping::DuplicateGroup;
use crate::index::metrics::BucketDistribution;
use crate::index::planner::LshPlan;
use crate::text;

verus! {

/// Numbers in decimal digits, separated by commas.
pub open spec fn comma_separated(values: Seq<u64>) -> Seq<char>
    decreases values.len(),
{
    if values.len() == 0 {
        Seq::empty()
    } else if values.len() == 1 {
        text::decimal(values[0] as nat)
    } else {
        comma_separated(values.drop_last()) + ","@ + text::decimal(values.last() as nat)
    }
}

/// Numbers in decimal digits, separated by commas.
pub fn join_u64(values: &[u64]) -> (list: String)
    ensures
        list@ == comma_separated(values@),
{
    let mut list = String::new();
    let mut index: usize = 0;
    assert(values@.take(0) =~= Seq::empty());
    assert(list@ =~= Seq::empty());
    while index < values.len()
        invariant
            index <= values@.len(),
            list@ == comma_separated(values@.take(index as int)),
        decreases values@.len() - index,
    {
        let ghost before = list@;
        proof {
            let next = values@.take(index + 1);
            assert(next.drop_last() =~= values@.take(index as int));
            assert(next.last() == values@[index as int]);
        }
        if index > 0 {
            list.append(",");
        }
        text::push_decimal(&mut list, values[index]);
        proof {
            if index == 0 {
                assert(list@ =~= text::decimal(values@[0] as nat));
            } else {
                assert(list@ =~= before + ","@ + text::decimal(values@[index as int] as nat));
            }
        }
        index = index + 1;
    }
    assert(values@.take(index as int) =~= values@);
    list
}

/// A label and a number.
fn labelled(label: &str, number: u64) -> (line: String)
    ensures
        line@ == label@ + text::decimal(number as nat),
{
    let mut line = label.to_owned();
    text::push_decimal(&mut line, number);
    line
}

/// A label and a text.
fn labelled_text(label: &str, value: &str) -> (line: String)
    ensures
        line@ == label@ + value@,
{
    let mut line = label.to_owned();
    line.append(value);
    line
}

/// A label and a truth value.
fn labelled_flag(label: &str, value: bool) -> (line: String)
    ensures
        line@ == label@ + flag(value),
{
    labelled_text(
        label,
        if value {
            "true"
        } else {
            "false"
        },
    )
}

/// A truth value in words.
pub open spec fn flag(value: bool) -> Seq<char> {
    if value {
        "true"@
    } else {
        "false"@
    }
}

/// The line for a pair of candidates.
pub fn pair_line(left: u64, right: u64) -> (line: String)
    ensures
        line@ == text::decimal(left as nat) + "\t"@ + text::decimal(right as nat),
{
    let mut line = String::new();
    text::push_decimal(&mut line, left);
    line.append("\t");
    text::push_decimal(&mut line, right);
    assert(line@ =~= text::decimal(left as nat) + "\t"@ + text::decimal(right as nat));
    line
}

/// The line for a group of duplicates.
pub fn group_line(group: &DuplicateGroup) -> (line: String)
    ensures
        line@ == text::decimal(group@.representative as nat) + "\t"@ + comma_separated(
            group@.members,
        ),
{
    let mut line = String::new();
    text::push_decimal(&mut line, group.representative());
    line.append("\t");
    line.append(join_u64(group.members()).as_str());
    assert(line@ =~= text::decimal(group@.representative as nat) + "\t"@ + comma_separated(
        group@.members,
    ));
    line
}

/// The line for the answer to a query, which may have a name.
pub fn search_line(query: usize, id: Option<&String>, candidates: &[u64]) -> (line: String)
    ensures
        line@ == text::decimal(query as nat) + "\t"@ + (match id {
            Some(id) => id@,
            None => "-"@,
        }) + "\t"@ + comma_separated(candidates@),
{
    let mut line = String::new();
    text::push_decimal(&mut line, query as u64);
    assert(line@ =~= text::decimal(query as nat));
    line.append("\t");
    match id {
        Some(id) => line.append(id.as_str()),
        None => line.append("-"),
    }
    line.append("\t");
    line.append(join_u64(candidates).as_str());
    line
}

/// The line for an index that was built.
pub fn index_line(items: usize, path: &str, file_bytes: u64, bands: usize, rows: usize) -> (line:
    String)
    ensures
        line@ == "indexed "@ + text::decimal(items as nat) + " items into "@ + path@ + " ("@
            + text::decimal(file_bytes as nat) + " bytes, "@ + text::decimal(bands as nat)
            + " bands x "@ + text::decimal(rows as nat) + " rows)"@,
{
    let mut line = labelled("indexed ", items as u64);
    line.append(" items into ");
    line.append(path);
    line.append(" (");
    text::push_decimal(&mut line, file_bytes);
    line.append(" bytes, ");
    text::push_decimal(&mut line, bands as u64);
    line.append(" bands x ");
    text::push_decimal(&mut line, rows as u64);
    line.append(" rows)");
    line
}

/// The line for a file that was found valid.
pub fn verify_line(result: &VerifyResult) -> (line: String)
    ensures
        line@ == "valid: "@ + text::decimal(result.sections as nat) + " sections, "@
            + text::decimal(result.bucket_sections as nat) + " bucket sections, "@
            + text::decimal(result.buckets as nat) + " buckets, "@ + text::decimal(
            result.members_checked as nat,
        ) + " members checked"@,
{
    let mut line = labelled("valid: ", result.sections as u64);
    line.append(" sections, ");
    text::push_decimal(&mut line, result.bucket_sections as u64);
    line.append(" bucket sections, ");
    text::push_decimal(&mut line, result.buckets as u64);
    line.append(" buckets, ");
    text::push_decimal(&mut line, result.members_checked);
    line.append(" members checked");
    line
}

/// The rendered numbers of a plan that are no integers.
#[derive(Debug)]
pub struct CurveText {
    /// The similarity threshold.
    pub threshold: String,
    /// The candidate probability at the threshold.
    pub probability: String,
    /// The similarity with even odds of being a candidate.
    pub similarity: String,
    /// The false-positive area.
    pub false_positive: String,
    /// The false-negative area.
    pub false_negative: String,
}

/// The texts of lines.
pub open spec fn lines_of(lines: Seq<String>) -> Seq<Seq<char>> {
    Seq::new(lines.len(), |i: int| lines[i]@)
}

fn push_line(lines: &mut Vec<String>, line: String)
    ensures
        lines_of(final(lines)@) == lines_of(old(lines)@).push(line@),
{
    lines.push(line);
    assert(lines_of(lines@) =~= lines_of(old(lines)@).push(line@));
}

/// The lines on the configuration of a plan.
pub open spec fn configuration_lines(plan: LshPlan, curve: CurveText) -> Seq<Seq<char>> {
    seq![
        "model: "@ + plan.model@ + " (analytical/model-based, not a measured guarantee)"@,
        "items: "@ + text::decimal(plan.expected_items as nat),
        "threshold: "@ + curve.threshold@,
        "num perm: "@ + text::decimal(plan.num_perm as nat),
        "parameters: "@ + text::decimal(plan.params.bands as nat) + " bands x "@ + text::decimal(
            plan.params.rows as nat,
        ) + " rows ("@ + plan.parameter_source.spelling() + ")"@,
        "permutations: "@ + text::decimal(plan.used_permutations as nat) + " used, "@
            + text::decimal(plan.unused_permutations as nat) + " unused"@,
        "candidate probability at threshold: "@ + curve.probability@,
        "50% candidate similarity: "@ + curve.similarity@,
        "false-positive area: "@ + curve.false_positive@,
        "false-negative area: "@ + curve.false_negative@,
    ]
}

fn push_configuration(lines: &mut Vec<String>, plan: &LshPlan, curve: &CurveText)
    ensures
        lines_of(final(lines)@) == lines_of(old(lines)@) + configuration_lines(*plan, *curve),
{
    let mut model = labelled_text("model: ", plan.model);
    model.append(" (analytical/model-based, not a measured guarantee)");
    push_line(lines, model);
    push_line(lines, labelled("items: ", plan.expected_items));
    push_line(lines, labelled_text("threshold: ", curve.threshold.as_str()));
    push_line(lines, labelled("num perm: ", plan.num_perm as u64));
    let mut parameters = labelled("parameters: ", plan.params.bands as u64);
    parameters.append(" bands x ");
    text::push_decimal(&mut parameters, plan.params.rows as u64);
    parameters.append(" rows (");
    parameters.append(plan.parameter_source.as_str());
    parameters.append(")");
    push_line(lines, parameters);
    let mut permutations = labelled("permutations: ", plan.used_permutations as u64);
    permutations.append(" used, ");
    text::push_decimal(&mut permutations, plan.unused_permutations as u64);
    permutations.append(" unused");
    push_line(lines, permutations);
    push_line(
        lines,
        labelled_text("candidate probability at threshold: ", curve.probability.as_str()),
    );
    push_line(lines, labelled_text("50% candidate similarity: ", curve.similarity.as_str()));
    push_line(lines, labelled_text("false-positive area: ", curve.false_positive.as_str()));
    push_line(lines, labelled_text("false-negative area: ", curve.false_negative.as_str()));
    assert(lines_of(lines@) =~= lines_of(old(lines)@) + configuration_lines(*plan, *curve));
}

/// The lines on the sizes of a plan.
pub open spec fn size_lines(plan: LshPlan) -> Seq<Seq<char>> {
    seq![
        "signature bytes/item: "@ + text::decimal(plan.sizes.signature_bytes_per_item as nat),
        "bucket memberships/item: "@ + text::decimal(plan.bucket_memberships_per_item as nat),
        "modeled index metadata bytes: "@ + text::decimal(plan.sizes.index_metadata_bytes as nat),
        "modeled in-memory index bytes: "@ + text::decimal(plan.sizes.in_memory_index_bytes as nat),
        "modeled persistent index bytes: "@ + text::decimal(
            plan.sizes.persistent_index_bytes as nat,
        ),
        "modeled lazy resident bytes: "@ + text::decimal(plan.sizes.lazy_resident_bytes as nat),
    ]
}

fn push_sizes(lines: &mut Vec<String>, plan: &LshPlan)
    ensures
        lines_of(final(lines)@) == lines_of(old(lines)@) + size_lines(*plan),
{
    push_line(lines, labelled("signature bytes/item: ", plan.sizes.signature_bytes_per_item));
    push_line(lines, labelled("bucket memberships/item: ", plan.bucket_memberships_per_item));
    push_line(lines, labelled("modeled index metadata bytes: ", plan.sizes.index_metadata_bytes));
    push_line(lines, labelled("modeled in-memory index bytes: ", plan.sizes.in_memory_index_bytes));
    push_line(
        lines,
        labelled("modeled persistent index bytes: ", plan.sizes.persistent_index_bytes),
    );
    push_line(lines, labelled("modeled lazy resident bytes: ", plan.sizes.lazy_resident_bytes));
    assert(lines_of(lines@) =~= lines_of(old(lines)@) + size_lines(*plan));
}

/// The lines on the storage that a plan recommends.
pub open spec fn storage_lines(plan: LshPlan) -> Seq<Seq<char>> {
    let budget = match plan.memory_budget_bytes {
        Some(bytes) => seq![
            "memory budget bytes: "@ + text::decimal(bytes as nat),
            "in-memory fits with 50% headroom: "@ + flag(
                plan.in_memory_fits_budget == Some(true),
            ),
            "persistent/lazy fits with 50% headroom: "@ + flag(
                plan.persistent_fits_budget == Some(true),
            ),
        ],
        None => Seq::empty(),
    };
    budget + seq![
        "requested storage: "@ + plan.requested_storage.spelling(),
        "recommended storage: "@ + plan.recommended_storage.spelling(),
        "recommendation: "@ + plan.recommendation_reason.spec_guidance(),
    ]
}

/// Whether something is known to hold.
fn holds(known: Option<bool>) -> (result: bool)
    ensures
        result == (known == Some(true)),
{
    match known {
        Some(value) => value,
        None => false,
    }
}

fn push_storage(lines: &mut Vec<String>, plan: &LshPlan)
    ensures
        lines_of(final(lines)@) == lines_of(old(lines)@) + storage_lines(*plan),
{
    match plan.memory_budget_bytes {
        Some(bytes) => {
            push_line(lines, labelled("memory budget bytes: ", bytes));
            push_line(
                lines,
                labelled_flag(
                    "in-memory fits with 50% headroom: ",
                    holds(plan.in_memory_fits_budget),
                ),
            );
            push_line(
                lines,
                labelled_flag(
                    "persistent/lazy fits with 50% headroom: ",
                    holds(plan.persistent_fits_budget),
                ),
            );
        },
        None => {},
    }
    push_line(lines, labelled_text("requested storage: ", plan.requested_storage.as_str()));
    push_line(lines, labelled_text("recommended storage: ", plan.recommended_storage.as_str()));
    push_line(lines, labelled_text("recommendation: ", plan.recommendation_guidance()));
    assert(lines_of(lines@) =~= lines_of(old(lines)@) + storage_lines(*plan));
}

/// A plan in words.
pub open spec fn plan_text(plan: LshPlan, curve: CurveText) -> Seq<Seq<char>> {
    configuration_lines(plan, curve) + size_lines(plan) + storage_lines(plan)
}

/// A plan in words, line by line.
pub fn plan_lines(plan: &LshPlan, curve: &CurveText) -> (lines: Vec<String>)
    ensures
        lines_of(lines@) == plan_text(*plan, *curve),
{
    let mut lines: Vec<String> = Vec::new();
    assert(lines_of(lines@) =~= Seq::empty());
    push_configuration(&mut lines, plan, curve);
    push_sizes(&mut lines, plan);
    push_storage(&mut lines, plan);
    assert(lines_of(lines@) =~= plan_text(*plan, *curve));
    lines
}

/// A bucket distribution in words, given its rendered average.
pub open spec fn distribution_text(
    label: Seq<char>,
    distribution: BucketDistribution,
    average: Seq<char>,
) -> Seq<char> {
    label + text::decimal(distribution.memberships as nat) + " total, min "@ + text::decimal(
        distribution.minimum as nat,
    ) + ", p50 "@ + text::decimal(distribution.p50 as nat) + ", p95 "@ + text::decimal(
        distribution.p95 as nat,
    ) + ", p99 "@ + text::decimal(distribution.p99 as nat) + ", max "@ + text::decimal(
        distribution.maximum as nat,
    ) + ", average "@ + average
}

/// A bucket distribution in words, given its rendered average.
pub fn distribution_line(label: &str, distribution: &BucketDistribution, average: &str) -> (line:
    String)
    ensures
        line@ == distribution_text(label@, *distribution, average@),
{
    let mut line = labelled(label, distribution.memberships);
    line.append(" total, min ");
    text::push_decimal(&mut line, distribution.minimum);
    line.append(", p50 ");
    text::push_decimal(&mut line, distribution.p50);
    line.append(", p95 ");
    text::push_decimal(&mut line, distribution.p95);
    line.append(", p99 ");
    text::push_decimal(&mut line, distribution.p99);
    line.append(", max ");
    text::push_decimal(&mut line, distribution.maximum);
    line.append(", average ");
    line.append(average);
    line
}

/// The figures of a stored index.
#[derive(Debug, Clone, Copy)]
pub struct StoreFigures {
    /// Stored items.
    pub items: usize,
    /// Size of the file.
    pub file_bytes: u64,
    /// Signature length.
    pub num_perm: usize,
    /// Permutation seed.
    pub seed: u64,
    /// Bands.
    pub bands: usize,
    /// Rows in each band.
    pub rows: usize,
    /// Buckets of the committed file.
    pub committed_buckets: u64,
    /// Buckets that are not committed yet.
    pub overlay_buckets: u64,
    /// Committed keys that were removed.
    pub suppressed_base_keys: u64,
    /// Whether there are uncommitted changes.
    pub dirty: bool,
    /// Sizes of committed buckets.
    pub committed: BucketDistribution,
    /// Sizes of uncommitted buckets.
    pub overlay: BucketDistribution,
}

/// The figures of a stored index in words, given its rendered threshold and
/// averages.
pub open spec fn stats_text(
    figures: StoreFigures,
    threshold: Seq<char>,
    committed: Seq<char>,
    overlay: Seq<char>,
) -> Seq<Seq<char>> {
    seq![
        "items: "@ + text::decimal(figures.items as nat),
        "file bytes: "@ + text::decimal(figures.file_bytes as nat),
        "threshold: "@ + threshold,
        "num perm: "@ + text::decimal(figures.num_perm as nat),
        "seed: "@ + text::decimal(figures.seed as nat),
        "bands: "@ + text::decimal(figures.bands as nat),
        "rows: "@ + text::decimal(figures.rows as nat),
        "committed buckets: "@ + text::decimal(figures.committed_buckets as nat),
        "overlay buckets: "@ + text::decimal(figures.overlay_buckets as nat),
        "suppressed base keys: "@ + text::decimal(figures.suppressed_base_keys as nat),
        distribution_text("committed bucket members: "@, figures.committed, committed),
        distribution_text("overlay bucket members: "@, figures.overlay, overlay),
        "dirty: "@ + flag(figures.dirty),
    ]
}

/// The figures of a stored index, line by line.
pub fn stats_lines(
    figures: &StoreFigures,
    threshold: &str,
    committed: &str,
    overlay: &str,
) -> (lines: Vec<String>)
    ensures
        lines_of(lines@) == stats_text(*figures, threshold@, committed@, overlay@),
{
    let mut lines: Vec<String> = Vec::new();
    push_line(&mut lines, labelled("items: ", figures.items as u64));
    push_line(&mut lines, labelled("file bytes: ", figures.file_bytes));
    push_line(&mut lines, labelled_text("threshold: ", threshold));
    push_line(&mut lines, labelled("num perm: ", figures.num_perm as u64));
    push_line(&mut lines, labelled("seed: ", figures.seed));
    push_line(&mut lines, labelled("bands: ", figures.bands as u64));
    push_line(&mut lines, labelled("rows: ", figures.rows as u64));
    push_line(&mut lines, labelled("committed buckets: ", figures.committed_buckets));
    push_line(&mut lines, labelled("overlay buckets: ", figures.overlay_buckets));
    push_line(&mut lines, labelled("suppressed base keys: ", figures.suppressed_base_keys));
    push_line(
        &mut lines,
        distribution_line("committed bucket members: ", &figures.committed, committed),
    );
    push_line(
        &mut lines,
        distribution_line("overlay bucket members: ", &figures.overlay, overlay),
    );
    push_line(&mut lines, labelled_flag("dirty: ", figures.dirty));
    assert(lines_of(lines@) =~= stats_text(*figures, threshold@, committed@, overlay@));
    lines
}

/// A list grows by a comma and the next number, however long it is.
pub proof fn law_lists_name_every_value(values: Seq<u64>, more: u64)
    ensures
        comma_separated(Seq::empty()) == Seq::<char>::empty(),
        comma_separated(values.push(more)) == (if values.len() == 0 {
            text::decimal(more as nat)
        } else {
            comma_separated(values) + seq![','] + text::decimal(more as nat)
        }),
{
    reveal_strlit(",");
    assert(","@ =~= seq![',']);
    assert(values.push(more).drop_last() =~= values);
    assert(values.push(more).last() == more);
}

/// Every line is printed, in its place.
pub proof fn law_every_line_is_printed(lines: Seq<String>)
    ensures
        lines_of(lines).len() == lines.len(),
        forall|i: int| 0 <= i < lines.len() ==> #[trigger] lines_of(lines)[i] == lines[i]@,
{
}

proof fn lemma_same_start(start: Seq<char>, left: Seq<char>, right: Seq<char>)
    requires
        start + left == start + right,
    ensures
        left == right,
{
    assert((start + left).skip(start.len() as int) =~= left);
    assert((start + right).skip(start.len() as int) =~= right);
}

/// A number that is followed by something other than a digit, or by nothing, can be told
/// from every other number.
pub proof fn law_numbers_end_where_digits_end(
    left: u64,
    right: u64,
    left_rest: Seq<char>,
    right_rest: Seq<char>,
)
    requires
        left_rest.len() > 0 ==> !('0' <= left_rest[0] <= '9'),
        right_rest.len() > 0 ==> !('0' <= right_rest[0] <= '9'),
        text::decimal(left as nat) + left_rest == text::decimal(right as nat) + right_rest,
    ensures
        left == right,
        left_rest == right_rest,
{
    let a = text::decimal(left as nat);
    let b = text::decimal(right as nat);
    text::law_decimal_reads_back(left as nat, u64::MAX);
    text::law_decimal_reads_back(right as nat, u64::MAX);
    if a.len() < b.len() {
        assert((a + left_rest).len() == (b + right_rest).len());
        assert((a + left_rest)[a.len() as int] == left_rest[0]);
        assert((b + right_rest)[a.len() as int] == b[a.len() as int]);
    }
    if b.len() < a.len() {
        assert((a + left_rest).len() == (b + right_rest).len());
        assert((b + right_rest)[b.len() as int] == right_rest[0]);
        assert((a + left_rest)[b.len() as int] == a[b.len() as int]);
    }
    assert((a + left_rest).take(a.len() as int) =~= a);
    assert((b + right_rest).take(a.len() as int) =~= b);
    lemma_same_start(a, left_rest, right_rest);
}

proof fn lemma_labelled(label: Seq<char>, left: u64, right: u64)
    requires
        label + text::decimal(left as nat) == label + text::decimal(right as nat),
    ensures
        left == right,
{
    let a = text::decimal(left as nat);
    let b = text::decimal(right as nat);
    lemma_same_start(label, a, b);
    assert(a + Seq::empty() =~= a);
    assert(b + Seq::empty() =~= b);
    law_numbers_end_where_digits_end(left, right, Seq::empty(), Seq::empty());
}

proof fn lemma_flags(label: Seq<char>, left: bool, right: bool)
    requires
        label + flag(left) == label + flag(right),
    ensures
        left == right,
{
    lemma_same_start(label, flag(left), flag(right));
    reveal_strlit("true");
    reveal_strlit("false");
    assert("true"@.len() == 4 && "false"@.len() == 5);
}

proof fn lemma_separators()
    ensures
        " total, min "@.len() > 0 && !('0' <= " total, min "@[0] <= '9'),
        ", p50 "@.len() > 0 && !('0' <= ", p50 "@[0] <= '9'),
        ", p95 "@.len() > 0 && !('0' <= ", p95 "@[0] <= '9'),
        ", p99 "@.len() > 0 && !('0' <= ", p99 "@[0] <= '9'),
        ", max "@.len() > 0 && !('0' <= ", max "@[0] <= '9'),
        ", average "@.len() > 0 && !('0' <= ", average "@[0] <= '9'),
{
    reveal_strlit(" total, min ");
    reveal_strlit(", p50 ");
    reveal_strlit(", p95 ");
    reveal_strlit(", p99 ");
    reveal_strlit(", max ");
    reveal_strlit(", average ");
}

proof fn lemma_regrouped(front: Seq<char>, middle: Seq<char>, back: Seq<char>)
    ensures
        (front + middle) + back == front + (middle + back),
{
    assert((front + middle) + back =~= front + (middle + back));
}

/// What follows the memberships in the words on a distribution.
spec fn after_memberships(distribution: BucketDistribution, average: Seq<char>) -> Seq<char> {
    " total, min "@ + (text::decimal(distribution.minimum as nat) + after_minimum(
        distribution,
        average,
    ))
}

spec fn after_minimum(distribution: BucketDistribution, average: Seq<char>) -> Seq<char> {
    ", p50 "@ + (text::decimal(distribution.p50 as nat) + after_p50(distribution, average))
}

spec fn after_p50(distribution: BucketDistribution, average: Seq<char>) -> Seq<char> {
    ", p95 "@ + (text::decimal(distribution.p95 as nat) + after_p95(distribution, average))
}

spec fn after_p95(distribution: BucketDistribution, average: Seq<char>) -> Seq<char> {
    ", p99 "@ + (text::decimal(distribution.p99 as nat) + after_p99(distribution, average))
}

spec fn after_p99(distribution: BucketDistribution, average: Seq<char>) -> Seq<char> {
    ", max "@ + (text::decimal(distribution.maximum as nat) + after_maximum(average))
}

spec fn after_maximum(average: Seq<char>) -> Seq<char> {
    ", average "@ + average
}

proof fn lemma_distribution_text(
    label: Seq<char>,
    distribution: BucketDistribution,
    average: Seq<char>,
)
    ensures
        distribution_text(label, distribution, average) == label + (text::decimal(
            distribution.memberships as nat,
        ) + after_memberships(distribution, average)),
{
    let d0 = text::decimal(distribution.memberships as nat);
    let d1 = text::decimal(distribution.minimum as nat);
    let d2 = text::decimal(distribution.p50 as nat);
    let d3 = text::decimal(distribution.p95 as nat);
    let d4 = text::decimal(distribution.p99 as nat);
    let d5 = text::decimal(distribution.maximum as nat);
    let x0 = label + d0;
    let y0 = x0 + " total, min "@;
    let x1 = y0 + d1;
    let y1 = x1 + ", p50 "@;
    let x2 = y1 + d2;
    let y2 = x2 + ", p95 "@;
    let x3 = y2 + d3;
    let y3 = x3 + ", p99 "@;
    let x4 = y3 + d4;
    let y4 = x4 + ", max "@;
    let x5 = y4 + d5;
    lemma_regrouped(x5, ", average "@, average);
    lemma_regrouped(y4, d5, after_maximum(average));
    lemma_regrouped(x4, ", max "@, d5 + after_maximum(average));
    lemma_regrouped(y3, d4, after_p99(distribution, average));
    lemma_regrouped(x3, ", p99 "@, d4 + after_p99(distribution, average));
    lemma_regrouped(y2, d3, after_p95(distribution, average));
    lemma_regrouped(x2, ", p95 "@, d3 + after_p95(distribution, average));
    lemma_regrouped(y1, d2, after_p50(distribution, average));
    lemma_regrouped(x1, ", p50 "@, d2 + after_p50(distribution, average));
    lemma_regrouped(y0, d1, after_minimum(distribution, average));
    lemma_regrouped(x0, " total, min "@, d1 + after_minimum(distribution, average));
    lemma_regrouped(label, d0, after_memberships(distribution, average));
}

/// The words on a distribution tell all its figures: distributions that are told in the
/// same words have the same figures.
pub proof fn law_distributions_are_told(
    label: Seq<char>,
    left: BucketDistribution,
    right: BucketDistribution,
    left_average: Seq<char>,
    right_average: Seq<char>,
)
    requires
        distribution_text(label, left, left_average) == distribution_text(
            label,
            right,
            right_average,
        ),
    ensures
        left.memberships == right.memberships,
        left.minimum == right.minimum,
        left.p50 == right.p50,
        left.p95 == right.p95,
        left.p99 == right.p99,
        left.maximum == right.maximum,
        left_average == right_average,
{
    lemma_separators();
    lemma_distribution_text(label, left, left_average);
    lemma_distribution_text(label, right, right_average);
    lemma_same_start(
        label,
        text::decimal(left.memberships as nat) + after_memberships(left, left_average),
        text::decimal(right.memberships as nat) + after_memberships(right, right_average),
    );
    law_numbers_end_where_digits_end(
        left.memberships,
        right.memberships,
        after_memberships(left, left_average),
        after_memberships(right, right_average),
    );
    lemma_same_start(
        " total, min "@,
        text::decimal(left.minimum as nat) + after_minimum(left, left_average),
        text::decimal(right.minimum as nat) + after_minimum(right, right_average),
    );
    law_numbers_end_where_digits_end(
        left.minimum,
        right.minimum,
        after_minimum(left, left_average),
        after_minimum(right, right_average),
    );
    lemma_same_start(
        ", p50 "@,
        text::decimal(left.p50 as nat) + after_p50(left, left_average),
        text::decimal(right.p50 as nat) + after_p50(right, right_average),
    );
    law_numbers_end_where_digits_end(
        left.p50,
        right.p50,
        after_p50(left, left_average),
        after_p50(right, right_average),
    );
    lemma_same_start(
        ", p95 "@,
        text::decimal(left.p95 as nat) + after_p95(left, left_average),
        text::decimal(right.p95 as nat) + after_p95(right, right_average),
    );
    law_numbers_end_where_digits_end(
        left.p95,
        right.p95,
        after_p95(left, left_average),
        after_p95(right, right_average),
    );
    lemma_same_start(
        ", p99 "@,
        text::decimal(left.p99 as nat) + after_p99(left, left_average),
        text::decimal(right.p99 as nat) + after_p99(right, right_average),
    );
    law_numbers_end_where_digits_end(
        left.p99,
        right.p99,
        after_p99(left, left_average),
        after_p99(right, right_average),
    );
    lemma_same_start(
        ", max "@,
        text::decimal(left.maximum as nat) + after_maximum(left_average),
        text::decimal(right.maximum as nat) + after_maximum(right_average),
    );
    law_numbers_end_where_digits_end(
        left.maximum,
        right.maximum,
        after_maximum(left_average),
        after_maximum(right_average),
    );
    lemma_same_start(", average "@, left_average, right_average);
}

/// The words on an index tell all its figures: indexes that are told in the same words have
/// the same figures.
pub proof fn law_figures_are_told(
    left: StoreFigures,
    right: StoreFigures,
    left_texts: (Seq<char>, Seq<char>, Seq<char>),
    right_texts: (Seq<char>, Seq<char>, Seq<char>),
)
    requires
        stats_text(left, left_texts.0, left_texts.1, left_texts.2) == stats_text(
            right,
            right_texts.0,
            right_texts.1,
            right_texts.2,
        ),
    ensures
        left.items == right.items,
        left.file_bytes == right.file_bytes,
        left_texts == right_texts,
        left.num_perm == right.num_perm,
        left.seed == right.seed,
        left.bands == right.bands,
        left.rows == right.rows,
        left.committed_buckets == right.committed_buckets,
        left.overlay_buckets == right.overlay_buckets,
        left.suppressed_base_keys == right.suppressed_base_keys,
        left.committed.memberships == right.committed.memberships,
        left.committed.maximum == right.committed.maximum,
        left.overlay.memberships == right.overlay.memberships,
        left.overlay.maximum == right.overlay.maximum,
        left.dirty == right.dirty,
{
    let a = stats_text(left, left_texts.0, left_texts.1, left_texts.2);
    let b = stats_text(right, right_texts.0, right_texts.1, right_texts.2);
    assert(a[0] == b[0] && a[1] == b[1] && a[2] == b[2] && a[3] == b[3] && a[4] == b[4]);
    assert(a[5] == b[5] && a[6] == b[6] && a[7] == b[7] && a[8] == b[8] && a[9] == b[9]);
    assert(a[10] == b[10] && a[11] == b[11] && a[12] == b[12]);
    lemma_labelled("items: "@, left.items as u64, right.items as u64);
    lemma_labelled("file bytes: "@, left.file_bytes as u64, right.file_bytes as u64);
    lemma_same_start("threshold: "@, left_texts.0, right_texts.0);
    lemma_labelled("num perm: "@, left.num_perm as u64, right.num_perm as u64);
    lemma_labelled("seed: "@, left.seed as u64, right.seed as u64);
    lemma_labelled("bands: "@, left.bands as u64, right.bands as u64);
    lemma_labelled("rows: "@, left.rows as u64, right.rows as u64);
    lemma_labelled(
        "committed buckets: "@,
        left.committed_buckets as u64,
        right.committed_buckets as u64,
    );
    lemma_labelled("overlay buckets: "@, left.overlay_buckets as u64, right.overlay_buckets as u64);
    lemma_labelled(
        "suppressed base keys: "@,
        left.suppressed_base_keys as u64,
        right.suppressed_base_keys as u64,
    );
    law_distributions_are_told(
        "committed bucket members: "@,
        left.committed,
        right.committed,
        left_texts.1,
        right_texts.1,
    );
    law_distributions_are_told(
        "overlay bucket members: "@,
        left.overlay,
        right.overlay,
        left_texts.2,
        right_texts.2,
    );
    lemma_flags("dirty: "@, left.dirty, right.dirty);
}

/// The words on the sizes of a plan tell all of them.
pub proof fn law_sizes_are_told(left: LshPlan, right: LshPlan)
    requires
        size_lines(left) == size_lines(right),
    ensures
        left.sizes.signature_bytes_per_item == right.sizes.signature_bytes_per_item,
        left.bucket_memberships_per_item == right.bucket_memberships_per_item,
        left.sizes.index_metadata_bytes == right.sizes.index_metadata_bytes,
        left.sizes.in_memory_index_bytes == right.sizes.in_memory_index_bytes,
        left.sizes.persistent_index_bytes == right.sizes.persistent_index_bytes,
        left.sizes.lazy_resident_bytes == right.sizes.lazy_resident_bytes,
{
    let a = size_lines(left);
    let b = size_lines(right);
    assert(a[0] == b[0] && a[1] == b[1] && a[2] == b[2] && a[3] == b[3] && a[4] == b[4] && a[5]
        == b[5]);
    lemma_labelled(
        "signature bytes/item: "@,
        left.sizes.signature_bytes_per_item as u64,
        right.sizes.signature_bytes_per_item as u64,
    );
    lemma_labelled(
        "bucket memberships/item: "@,
        left.bucket_memberships_per_item as u64,
        right.bucket_memberships_per_item as u64,
    );
    lemma_labelled(
        "modeled index metadata bytes: "@,
        left.sizes.index_metadata_bytes as u64,
        right.sizes.index_metadata_bytes as u64,
    );
    lemma_labelled(
        "modeled in-memory index bytes: "@,
        left.sizes.in_memory_index_bytes as u64,
        right.sizes.in_memory_index_bytes as u64,
    );
    lemma_labelled(
        "modeled persistent index bytes: "@,
        left.sizes.persistent_index_bytes as u64,
        right.sizes.persistent_index_bytes as u64,
    );
    lemma_labelled(
        "modeled lazy resident bytes: "@,
        left.sizes.lazy_resident_bytes as u64,
        right.sizes.lazy_resident_bytes as u64,
    );
}

} // verus!
