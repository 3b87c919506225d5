//! The stages of a run as they are drawn.
use crate::text;
use vstd::prelude::*;

verus! {

/// A sample of the timeline: the time since the start and the stage at that time.
#[derive(Clone, Debug, PartialEq, Eq)]
pub struct TimelineSample {
    pub elapsed_nanos: u64,
    pub stage: String,
}

/// A stretch of the timeline in one stage.
#[derive(Clone, Debug, PartialEq, Eq)]
pub struct StageSegment {
    pub start_nanos: u64,
    pub end_nanos: u64,
    pub stage: String,
}

/// The samples among the first `n` at which the stage changes.
pub open spec fn changes(samples: Seq<TimelineSample>, n: nat) -> Seq<int>
    decreases n,
{
    if n <= 1 {
        Seq::empty()
    } else if samples[n - 1].stage@ != samples[n - 2].stage@ {
        changes(samples, (n - 1) as nat).push(n - 1)
    } else {
        changes(samples, (n - 1) as nat)
    }
}

/// The first sample of stretch `i`.
pub open spec fn head(samples: Seq<TimelineSample>, n: nat, i: int) -> int {
    if i == 0 {
        0
    } else {
        changes(samples, n)[i - 1]
    }
}

/// Whether a stretch is stretch `i` of the first `n` samples: it starts where its stage is first
/// seen, the first one at zero, and ends where the next starts, the last one at the last sample.
pub open spec fn is_stretch(samples: Seq<TimelineSample>, n: nat, i: int, segment: StageSegment) -> bool {
    let starts = changes(samples, n);
    &&& segment.stage@ == samples[head(samples, n, i)].stage@
    &&& segment.start_nanos == if i == 0 {
        0
    } else {
        samples[starts[i - 1]].elapsed_nanos
    }
    &&& segment.end_nanos == if i < starts.len() {
        samples[starts[i]].elapsed_nanos
    } else {
        samples[n - 1].elapsed_nanos
    }
}

proof fn lemma_changes(samples: Seq<TimelineSample>, n: nat)
    requires
        1 <= n <= samples.len(),
    ensures
        forall|i: int| 0 <= i < changes(samples, n).len() ==> 0 < #[trigger] changes(samples, n)[i] < n,
        samples[n - 1].stage@ == samples[head(samples, n, changes(samples, n).len() as int)].stage@,
    decreases n,
{
    if n > 1 {
        lemma_changes(samples, (n - 1) as nat);
    }
}

/// The stretches of the timeline, none where there are no samples.
pub fn cpu_stage_segments(samples: &Vec<TimelineSample>) -> (r: Vec<StageSegment>)
    ensures
        samples@.len() == 0 ==> r@.len() == 0,
        samples@.len() > 0 ==> r@.len() == changes(samples@, samples@.len()).len() + 1,
        forall|i: int|
            0 <= i < r@.len() ==> is_stretch(samples@, samples@.len(), i, #[trigger] r@[i]),
{
    let mut segments: Vec<StageSegment> = Vec::new();
    if samples.len() == 0 {
        return segments;
    }
    let ghost s = samples@;
    let mut start: u64 = 0;
    let mut current: String = samples[0].stage.clone();
    let mut last: u64 = samples[0].elapsed_nanos;
    let mut i: usize = 1;
    proof {
        assert(changes(s, 1) =~= Seq::<int>::empty());
    }
    while i < samples.len()
        invariant
            s == samples@,
            1 <= i <= s.len(),
            segments@.len() == changes(s, i as nat).len(),
            last == s[i - 1].elapsed_nanos,
            current@ == s[i - 1].stage@,
            start == if segments@.len() == 0 {
                0
            } else {
                s[changes(s, i as nat)[segments@.len() - 1]].elapsed_nanos
            },
            forall|j: int|
                0 <= j < segments@.len() ==> is_stretch(s, i as nat, j, #[trigger] segments@[j]),
        decreases s.len() - i,
    {
        let ghost before = segments@;
        let ghost old_changes = changes(s, i as nat);
        let ghost new_changes = changes(s, (i + 1) as nat);
        proof {
            lemma_changes(s, i as nat);
            lemma_changes(s, (i + 1) as nat);
        }
        let sample = &samples[i];
        if sample.stage != current {
            segments.push(
                StageSegment { start_nanos: start, end_nanos: sample.elapsed_nanos, stage: current },
            );
            start = sample.elapsed_nanos;
            current = sample.stage.clone();
            assert(new_changes == old_changes.push(i as int));
        } else {
            assert(new_changes == old_changes);
        }
        last = sample.elapsed_nanos;
        proof {
            assert forall|j: int| 0 <= j < segments@.len() implies is_stretch(
                s,
                (i + 1) as nat,
                j,
                #[trigger] segments@[j],
            ) by {
                if j < before.len() {
                    assert(is_stretch(s, i as nat, j, before[j]));
                    assert(segments@[j] == before[j]);
                }
            }
        }
        i = i + 1;
    }
    proof {
        lemma_changes(s, s.len());
    }
    segments.push(StageSegment { start_nanos: start, end_nanos: last, stage: current });
    segments
}

/// Whether a text starts with another.
pub open spec fn starts(text: Seq<char>, prefix: Seq<char>) -> bool {
    prefix.len() <= text.len() && text.take(prefix.len() as int) == prefix
}

/// Whether a text ends with another.
pub open spec fn ends(text: Seq<char>, suffix: Seq<char>) -> bool {
    suffix.len() <= text.len() && text.skip(text.len() - suffix.len()) == suffix
}

/// Whether a text holds another at a place.
fn holds_at(text: &Vec<char>, part: &Vec<char>, at: usize) -> (r: bool)
    requires
        at + part@.len() <= text@.len(),
    ensures
        r == (text@.subrange(at as int, at + part@.len()) == part@),
{
    let n: usize = text.len();
    let mut i: usize = 0;
    while i < part.len()
        invariant
            n == text@.len(),
            i <= part@.len(),
            at + part@.len() <= n,
            forall|j: int| 0 <= j < i ==> text@[at + j] == part@[j],
        decreases part@.len() - i,
    {
        if text[at + i] != part[i] {
            assert(text@.subrange(at as int, at + part@.len())[i as int] != part@[i as int]);
            return false;
        }
        i = i + 1;
    }
    assert(text@.subrange(at as int, at + part@.len()) =~= part@);
    true
}

fn starts_with(text: &str, prefix: &str) -> (r: bool)
    ensures
        r == starts(text@, prefix@),
{
    let all = text::chars_of(text);
    let part = text::chars_of(prefix);
    proof {
        if part@.len() <= all@.len() {
            assert(all@.subrange(0, part@.len() as int) =~= all@.take(part@.len() as int));
        }
    }
    part.len() <= all.len() && holds_at(&all, &part, 0)
}

fn ends_with(text: &str, suffix: &str) -> (r: bool)
    ensures
        r == ends(text@, suffix@),
{
    let all = text::chars_of(text);
    let part = text::chars_of(suffix);
    proof {
        if part@.len() <= all@.len() {
            let at = all@.len() - part@.len();
            assert(all@.subrange(at, at + part@.len()) =~= all@.skip(at));
        }
    }
    part.len() <= all.len() && holds_at(&all, &part, all.len() - part.len())
}

/// The phase of the run that a stage belongs to.
pub open spec fn phase(stage: Seq<char>) -> Seq<char> {
    if starts(stage, "run/generate"@) || ends(stage, "/generate"@) {
        "generate"@
    } else if starts(stage, "run/build"@) || ends(stage, "/build"@) {
        "build"@
    } else if starts(stage, "run/verify"@) || ends(stage, "/verify"@) {
        "verify"@
    } else if starts(stage, "prove/"@) || ends(stage, "/prove"@) {
        "prove"@
    } else {
        text::pieces(stage, '/')[0]
    }
}

/// The phase of the run that a stage belongs to.
pub fn stage_phase(stage: &str) -> (r: String)
    ensures
        r@ == phase(stage@),
{
    if starts_with(stage, "run/generate") || ends_with(stage, "/generate") {
        "generate".to_owned()
    } else if starts_with(stage, "run/build") || ends_with(stage, "/build") {
        "build".to_owned()
    } else if starts_with(stage, "run/verify") || ends_with(stage, "/verify") {
        "verify".to_owned()
    } else if starts_with(stage, "prove/") || ends_with(stage, "/prove") {
        "prove".to_owned()
    } else {
        let parts = text::split(stage, '/');
        proof {
            text::law_pieces_join(stage@, '/');
            assert(text::texts(parts@).len() == parts@.len());
            assert(text::texts(parts@)[0] == parts@[0]@);
        }
        parts[0].clone()
    }
}

/// The color of a phase.
pub open spec fn color(phase: Seq<char>) -> Seq<char> {
    if phase == "generate"@ {
        "#6b8fce"@
    } else if phase == "build"@ {
        "#49a078"@
    } else if phase == "prove"@ {
        "#9b6bd3"@
    } else if phase == "verify"@ {
        "#cf5c5c"@
    } else {
        "#c9c9c2"@
    }
}

/// The color of the phase that a stage belongs to.
pub fn stage_color(stage: &str) -> (r: &'static str)
    ensures
        r@ == color(phase(stage@)),
{
    let phase = stage_phase(stage);
    if phase == "generate".to_owned() {
        "#6b8fce"
    } else if phase == "build".to_owned() {
        "#49a078"
    } else if phase == "prove".to_owned() {
        "#9b6bd3"
    } else if phase == "verify".to_owned() {
        "#cf5c5c"
    } else {
        "#c9c9c2"
    }
}

/// What a character becomes in a label.
pub open spec fn spaced(c: char) -> Seq<char> {
    if c == '_' {
        seq![' ']
    } else {
        seq![c]
    }
}

/// The last part of a stage, with spaces for underscores.
pub fn short_stage_label(stage: &str) -> (r: String)
    ensures
        r@ == text::mapped(text::pieces(stage@, '/').last(), |c: char| spaced(c)),
{
    let parts = text::split(stage, '/');
    proof {
        text::law_pieces_join(stage@, '/');
        assert(text::texts(parts@).len() == parts@.len());
        assert(text::texts(parts@)[parts@.len() - 1] == parts@[parts@.len() - 1]@);
        reveal_strlit(" ");
    }
    let part = parts[parts.len() - 1].as_str();
    let chars = text::chars_of(part);
    let n: usize = chars.len();
    let ghost f = |c: char| spaced(c);
    let mut out = String::new();
    let mut i: usize = 0;
    assert(text::mapped(part@.take(0), f) =~= Seq::<char>::empty());
    while i < n
        invariant
            n == part@.len(),
            chars@ == part@,
            f == (|c: char| spaced(c)),
            i <= n,
            out@ == text::mapped(part@.take(i as int), f),
            " "@ =~= seq![' '],
        decreases n - i,
    {
        let c: char = chars[i];
        if c == '_' {
            out.append(" ");
        } else {
            let same = part.substring_char(i, i + 1);
            assert(same@ =~= seq![c]);
            out.append(same);
        }
        proof {
            let upto = part@.take(i + 1);
            assert(upto.drop_last() =~= part@.take(i as int));
            assert(upto.last() == c);
        }
        i = i + 1;
    }
    assert(part@.take(n as int) =~= part@);
    out
}

/// A stretch starts at every sample whose stage is not that of the sample before it, and at no other.
pub proof fn law_stretches_start_where_stage_changes(samples: Seq<TimelineSample>, n: nat, j: int)
    requires
        1 <= n <= samples.len(),
    ensures
        changes(samples, n).contains(j) <==> 1 <= j < n && samples[j].stage@ != samples[j - 1].stage@,
        forall|a: int, b: int|
            0 <= a < b < changes(samples, n).len() ==> #[trigger] changes(samples, n)[a] < #[trigger] changes(
                samples,
                n,
            )[b],
    decreases n,
{
    if n > 1 {
        let m: nat = (n - 1) as nat;
        law_stretches_start_where_stage_changes(samples, m, j);
        lemma_changes(samples, m);
        let (old, new) = (changes(samples, m), changes(samples, n));
        if samples[n - 1].stage@ != samples[n - 2].stage@ {
            assert(new == old.push(n - 1));
            if old.contains(j) {
                let i = choose|i: int| 0 <= i < old.len() && old[i] == j;
                assert(new[i] == j);
            }
            if j == n - 1 {
                assert(new[old.len() as int] == j);
            }
            if new.contains(j) && j != n - 1 {
                let i = choose|i: int| 0 <= i < new.len() && new[i] == j;
                assert(old[i] == j);
            }
        }
    }
}

/// The stretches of a timeline lie next to each other, from its start to its last sample, and all samples
/// in one are of its stage.
pub proof fn law_stretches_adjoin(
    samples: Seq<TimelineSample>,
    segments: Seq<StageSegment>,
    i: int,
    j: int,
)
    requires
        samples.len() > 0,
        segments.len() == changes(samples, samples.len()).len() + 1,
        forall|i: int|
            0 <= i < segments.len() ==> is_stretch(samples, samples.len(), i, #[trigger] segments[i]),
        0 <= i < segments.len(),
        head(samples, samples.len(), i) <= j < samples.len(),
        i + 1 < segments.len() ==> j < head(samples, samples.len(), i + 1),
    ensures
        segments[0].start_nanos == 0,
        segments.last().end_nanos == samples.last().elapsed_nanos,
        i + 1 < segments.len() ==> segments[i].end_nanos == segments[i + 1].start_nanos,
        samples[j].stage@ == segments[i].stage@,
    decreases j,
{
    let n: nat = samples.len();
    let starts = changes(samples, n);
    assert(is_stretch(samples, n, 0, segments[0]));
    assert(is_stretch(samples, n, segments.len() - 1, segments[segments.len() - 1]));
    assert(is_stretch(samples, n, i, segments[i]));
    if i + 1 < segments.len() {
        assert(is_stretch(samples, n, i + 1, segments[i + 1]));
    }
    let from: int = head(samples, n, i);
    lemma_changes(samples, n);
    if i > 0 {
        assert(starts[i - 1] > 0);
    }
    if j > from {
        law_stretches_adjoin(samples, segments, i, j - 1);
        law_stretches_start_where_stage_changes(samples, n, j);
        if starts.contains(j) {
            let b = choose|b: int| 0 <= b < starts.len() && starts[b] == j;
            if b < i - 1 {
                assert(starts[b] < starts[i - 1]);
            } else if b >= i {
                if b > i {
                    assert(starts[i] < starts[b]);
                }
            }
        }
    }
}

proof fn lemma_starts(prefix: Seq<char>, rest: Seq<char>)
    ensures
        starts(prefix + rest, prefix),
        ends(rest + prefix, prefix),
{
    assert((prefix + rest).take(prefix.len() as int) =~= prefix);
    assert((rest + prefix).skip(rest.len() as int) =~= prefix);
}

/// The phase of a stage: one that a run starts with, or that a stage ends with, is that phase, whatever
/// else its name holds. Generating comes before building, building before verifying, and that before
/// proving.
pub proof fn law_phase_is_named(rest: Seq<char>)
    ensures
        phase("run/generate"@ + rest) == "generate"@,
        phase(rest + "/generate"@) == "generate"@,
        !ends("run/build"@ + rest, "/generate"@) ==> phase("run/build"@ + rest) == "build"@,
        !starts(rest + "/build"@, "run/generate"@) ==> phase(rest + "/build"@) == "build"@,
        !ends("run/verify"@ + rest, "/generate"@) && !ends("run/verify"@ + rest, "/build"@) ==> phase(
            "run/verify"@ + rest,
        ) == "verify"@,
        !starts(rest + "/verify"@, "run/generate"@) && !starts(rest + "/verify"@, "run/build"@) ==> phase(
            rest + "/verify"@,
        ) == "verify"@,
        !ends("prove/"@ + rest, "/generate"@) && !ends("prove/"@ + rest, "/build"@) && !ends(
            "prove/"@ + rest,
            "/verify"@,
        ) ==> phase("prove/"@ + rest) == "prove"@,
        !starts(rest + "/prove"@, "run/generate"@) && !starts(rest + "/prove"@, "run/build"@) && !starts(
            rest + "/prove"@,
            "run/verify"@,
        ) ==> phase(rest + "/prove"@) == "prove"@,
{
    reveal_strlit("run/generate");
    reveal_strlit("run/build");
    reveal_strlit("run/verify");
    reveal_strlit("prove/");
    reveal_strlit("/generate");
    reveal_strlit("/build");
    reveal_strlit("/verify");
    reveal_strlit("/prove");
    lemma_starts("run/generate"@, rest);
    lemma_starts("/generate"@, rest);
    lemma_starts("run/build"@, rest);
    lemma_starts("/build"@, rest);
    lemma_starts("run/verify"@, rest);
    lemma_starts("/verify"@, rest);
    lemma_starts("prove/"@, rest);
    lemma_starts("/prove"@, rest);
    let generate = "run/generate"@;
    let build = "run/build"@;
    let verify = "run/verify"@;
    assert(generate[4] == 'g' && build[4] == 'b' && verify[4] == 'v');
    let stage = build + rest;
    if starts(stage, generate) {
        assert(stage.take(12)[4] == stage[4]);
    }
    let stage = verify + rest;
    if starts(stage, generate) {
        assert(stage.take(12)[4] == stage[4]);
    }
    if starts(stage, build) {
        assert(stage.take(9)[4] == stage[4]);
    }
    let stage = "prove/"@ + rest;
    assert(stage[0] == 'p');
    if starts(stage, generate) {
        assert(stage.take(12)[0] == stage[0]);
    }
    if starts(stage, build) {
        assert(stage.take(9)[0] == stage[0]);
    }
    if starts(stage, verify) {
        assert(stage.take(10)[0] == stage[0]);
    }
    lemma_last(rest + "/build"@, "/generate"@);
    lemma_last(rest + "/verify"@, "/generate"@);
    lemma_last(rest + "/verify"@, "/build"@);
    lemma_last(rest + "/prove"@, "/generate"@);
    lemma_last(rest + "/prove"@, "/build"@);
    lemma_last(rest + "/prove"@, "/verify"@);
}

/// Texts end alike where one ends with the other.
proof fn lemma_last(text: Seq<char>, suffix: Seq<char>)
    requires
        suffix.len() > 1,
    ensures
        ends(text, suffix) ==> text.last() == suffix.last() && text[text.len() - 2] == suffix[suffix.len() - 2],
{
    if ends(text, suffix) {
        let at = text.len() - suffix.len();
        assert(text.skip(at)[suffix.len() - 1] == text[text.len() - 1]);
        assert(text.skip(at)[suffix.len() - 2] == text[text.len() - 2]);
    }
}

/// The phase of any other stage is its name up to the first slash.
pub proof fn law_other_phase_is_first_part(name: Seq<char>, rest: Seq<char>)
    requires
        forall|i: int| 0 <= i < name.len() ==> #[trigger] name[i] != '/',
        phase(name.push('/') + rest) != "generate"@,
        phase(name.push('/') + rest) != "build"@,
        phase(name.push('/') + rest) != "verify"@,
        phase(name.push('/') + rest) != "prove"@,
    ensures
        phase(name.push('/') + rest) == name,
{
    text::law_pieces_concatenate(name, rest, '/');
    text::law_whole_text_is_one_piece(name, '/');
}

/// The label of a stage is the part of its name behind the last slash, character by character, with a
/// space for every underscore.
pub proof fn law_label_is_last_part(before: Seq<char>, name: Seq<char>, i: int)
    requires
        forall|i: int| 0 <= i < name.len() ==> #[trigger] name[i] != '/',
        0 <= i < name.len(),
    ensures
        text::pieces(before.push('/') + name, '/').last() == name,
        text::pieces(name, '/').last() == name,
        text::mapped(name, |c: char| spaced(c)).len() == name.len(),
        text::mapped(name, |c: char| spaced(c))[i] == if name[i] == '_' {
            ' '
        } else {
            name[i]
        },
{
    text::law_pieces_concatenate(before, name, '/');
    text::law_whole_text_is_one_piece(name, '/');
    lemma_spaced(name, i);
}

proof fn lemma_spaced(name: Seq<char>, i: int)
    ensures
        text::mapped(name, |c: char| spaced(c)).len() == name.len(),
        0 <= i < name.len() ==> text::mapped(name, |c: char| spaced(c))[i] == if name[i] == '_' {
            ' '
        } else {
            name[i]
        },
    decreases name.len(),
{
    if name.len() > 0 {
        lemma_spaced(name.drop_last(), i);
    }
}

} // verus!
