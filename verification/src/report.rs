//! The detection reports: JSON, Markdown and the console summary.
use vstd::prelude::*;

use crate::detect::{format_size, spec_format_size, TypeStats};
use crate::text::{chars_of, decimal, push_decimal, push_str, string_of};

verus! {

/// How one character is written inside a JSON string: backslash, double
/// quote, newline and carriage return are escaped with a backslash.
pub open spec fn escape_char(c: char) -> Seq<char> {
    if c == '\\' {
        seq!['\\', '\\']
    } else if c == '"' {
        seq!['\\', '"']
    } else if c == '\n' {
        seq!['\\', 'n']
    } else if c == '\r' {
        seq!['\\', 'r']
    } else {
        seq![c]
    }
}

/// The escaped form of the first `n` characters of `s`.
pub open spec fn escape_prefix(s: Seq<char>, n: int) -> Seq<char>
    decreases n,
{
    if n <= 0 {
        Seq::empty()
    } else {
        escape_prefix(s, n - 1) + escape_char(s[n - 1])
    }
}

/// The escaped form of `s`: each character replaced by `escape_char` of it.
pub open spec fn spec_escape(s: Seq<char>) -> Seq<char> {
    escape_prefix(s, s.len() as int)
}

/// The character that the escape `\\x` stands for inside a JSON string:
/// `n`, `r`, `t`, `b` and `f` name control characters, any other character
/// stands for itself.
pub open spec fn unescape_char(x: char) -> char {
    if x == 'n' {
        '\n'
    } else if x == 'r' {
        '\r'
    } else if x == 't' {
        '\t'
    } else if x == 'b' {
        '\u{8}'
    } else if x == 'f' {
        '\u{c}'
    } else {
        x
    }
}

/// The text that the body `s` of a JSON string literal decodes to: a
/// backslash and the character after it are read as one escape, every other
/// character stands for itself.
pub open spec fn unescape(s: Seq<char>) -> Seq<char>
    decreases s.len(),
{
    if s.len() == 0 {
        Seq::empty()
    } else if s[0] == '\\' && s.len() >= 2 {
        seq![unescape_char(s[1])] + unescape(s.subrange(2, s.len() as int))
    } else {
        seq![s[0]] + unescape(s.subrange(1, s.len() as int))
    }
}

proof fn lemma_escape_prefix_front(s: Seq<char>, n: int)
    requires
        1 <= n <= s.len(),
    ensures
        escape_prefix(s, n) == escape_char(s[0]) + escape_prefix(s.drop_first(), n - 1),
    decreases n,
{
    if n > 1 {
        lemma_escape_prefix_front(s, n - 1);
        assert(s.drop_first()[n - 2] == s[n - 1]);
        assert(escape_prefix(s, n) =~= escape_char(s[0]) + escape_prefix(s.drop_first(), n - 1));
    } else {
        assert(escape_prefix(s, 0) == Seq::<char>::empty());
        assert(escape_prefix(s.drop_first(), 0) == Seq::<char>::empty());
        assert(escape_prefix(s, 1) =~= escape_char(s[0]) + escape_prefix(s.drop_first(), 0));
    }
}

/// Decoding an escaped text gives the text back: what `escape` writes into
/// the JSON report (a raid type, a note) is read back unchanged by JSON
/// string decoding.
pub proof fn lemma_unescape_escape(s: Seq<char>)
    ensures
        unescape(spec_escape(s)) == s,
    decreases s.len(),
{
    if s.len() > 0 {
        let t = s.drop_first();
        let c = s[0];
        let e = escape_char(c);
        let rest = spec_escape(t);
        lemma_escape_prefix_front(s, s.len() as int);
        assert(spec_escape(s) == e + rest);
        lemma_unescape_escape(t);
        let w = e + rest;
        if c == '\\' || c == '"' || c == '\n' || c == '\r' {
            assert(w[0] == '\\');
            assert(w.len() >= 2);
            assert(unescape_char(w[1]) == c);
            assert(w.subrange(2, w.len() as int) =~= rest);
        } else {
            assert(w[0] == c);
            assert(w.subrange(1, w.len() as int) =~= rest);
        }
        assert(unescape(w) == seq![c] + unescape(rest));
        assert(seq![c] + t =~= s);
    } else {
        assert(spec_escape(s) =~= Seq::<char>::empty());
    }
}

/// Different texts escape differently.
pub proof fn lemma_escape_injective(a: Seq<char>, b: Seq<char>)
    requires
        spec_escape(a) == spec_escape(b),
    ensures
        a == b,
{
    lemma_unescape_escape(a);
    lemma_unescape_escape(b);
}

/// Escapes `value` for use inside a JSON string literal.
pub fn escape(value: &str) -> (r: String)
    ensures
        r@ == spec_escape(value@),
{
    let cs = chars_of(value);
    let mut out: Vec<char> = Vec::new();
    let mut i: usize = 0;
    while i < cs.len()
        invariant
            cs@ == value@,
            i <= cs@.len(),
            out@ == escape_prefix(cs@, i as int),
        decreases cs@.len() - i,
    {
        let c = cs[i];
        let ghost before = out@;
        if c == '\\' {
            out.push('\\');
            out.push('\\');
        } else if c == '"' {
            out.push('\\');
            out.push('"');
        } else if c == '\n' {
            out.push('\\');
            out.push('n');
        } else if c == '\r' {
            out.push('\\');
            out.push('r');
        } else {
            out.push(c);
        }
        assert(out@ =~= before + escape_char(c));
        i = i + 1;
    }
    string_of(&out)
}

/// One ranked candidate as the reports show it. The scores are written out
/// already: `score`, `type_score` and `stripe_vote_ratio` with six decimals,
/// `score_short` (the same score) with three.
pub struct CandidateFields {
    pub raid_type: String,
    pub stripe_size: Option<usize>,
    pub score: String,
    pub score_short: String,
    pub type_score: String,
    pub stripe_votes: usize,
    pub stripe_vote_ratio: String,
    pub notes: Vec<String>,
}

/// The mathematical form of a `CandidateFields`.
pub struct CandidateView {
    pub raid_type: Seq<char>,
    pub stripe_size: Option<usize>,
    pub score: Seq<char>,
    pub score_short: Seq<char>,
    pub type_score: Seq<char>,
    pub stripe_votes: usize,
    pub stripe_vote_ratio: Seq<char>,
    pub notes: Seq<Seq<char>>,
}

/// The text of each string of `v`.
pub open spec fn string_views(v: Seq<String>) -> Seq<Seq<char>> {
    Seq::new(v.len(), |i: int| v[i]@)
}

impl View for CandidateFields {
    type V = CandidateView;

    open spec fn view(&self) -> CandidateView {
        CandidateView {
            raid_type: self.raid_type@,
            stripe_size: self.stripe_size,
            score: self.score@,
            score_short: self.score_short@,
            type_score: self.type_score@,
            stripe_votes: self.stripe_votes,
            stripe_vote_ratio: self.stripe_vote_ratio@,
            notes: string_views(self.notes@),
        }
    }
}

/// What a detection report says: the sample that was read, the row counts
/// and the ranked candidates.
pub struct ReportFields {
    pub image_count: usize,
    pub block_size: usize,
    pub sampled_blocks: usize,
    pub type_stats: TypeStats,
    pub candidates: Vec<CandidateFields>,
}

/// The mathematical form of a `ReportFields`.
pub struct ReportView {
    pub image_count: usize,
    pub block_size: usize,
    pub sampled_blocks: usize,
    pub mirrored_blocks: usize,
    pub parity_blocks: usize,
    pub unassigned_blocks: usize,
    pub candidates: Seq<CandidateView>,
}

impl View for ReportFields {
    type V = ReportView;

    open spec fn view(&self) -> ReportView {
        ReportView {
            image_count: self.image_count,
            block_size: self.block_size,
            sampled_blocks: self.sampled_blocks,
            mirrored_blocks: self.type_stats.mirrored_blocks,
            parity_blocks: self.type_stats.parity_blocks,
            unassigned_blocks: self.type_stats.unassigned_blocks,
            candidates: Seq::new(self.candidates@.len(), |i: int| self.candidates@[i]@),
        }
    }
}

/// The JSON `stripe_size` line: the size, or `null` when it is unknown.
pub open spec fn json_stripe(stripe: Option<usize>) -> Seq<char> {
    match stripe {
        Some(n) => "      \"stripe_size\": "@ + decimal(n as nat) + ",\n"@,
        None => "      \"stripe_size\": null,\n"@,
    }
}

/// The first `n` notes as JSON strings, separated by `, `.
pub open spec fn json_notes(notes: Seq<Seq<char>>, n: int) -> Seq<char>
    decreases n,
{
    if n <= 0 {
        Seq::empty()
    } else {
        json_notes(notes, n - 1) + (if n > 1 { ", "@ } else { Seq::empty() }) + "\""@ + spec_escape(notes[n - 1])
            + "\""@
    }
}

/// The opening of a candidate's JSON object: its type, stripe size and score.
pub open spec fn json_candidate_head(c: CandidateView) -> Seq<char> {
    "    {\n"@ + "      \"raid_type\": \""@ + spec_escape(c.raid_type) + "\",\n"@ + json_stripe(c.stripe_size)
        + "      \"score\": "@ + c.score + ",\n"@
}

/// The numbers of a candidate's `evidence` object.
pub open spec fn json_evidence_numbers(c: CandidateView) -> Seq<char> {
    "      \"evidence\": {\n"@ + "        \"type_score\": "@ + c.type_score + ",\n"@ + "        \"stripe_votes\": "@
        + decimal(c.stripe_votes as nat) + ",\n"@ + "        \"stripe_vote_ratio\": "@ + c.stripe_vote_ratio + ",\n"@
}

/// The notes of a candidate's `evidence` object, and the object's close.
pub open spec fn json_evidence_notes(c: CandidateView) -> Seq<char> {
    "        \"notes\": ["@ + json_notes(c.notes, c.notes.len() as int) + "]\n"@ + "      }\n"@
}

/// The JSON object of one candidate; all but the last are followed by a comma.
pub open spec fn json_candidate(c: CandidateView, last: bool) -> Seq<char> {
    json_candidate_head(c) + json_evidence_numbers(c) + json_evidence_notes(c) + "    }"@
        + (if last { Seq::empty() } else { ","@ }) + "\n"@
}

/// The JSON objects of the first `n` candidates.
pub open spec fn json_candidates(cs: Seq<CandidateView>, n: int) -> Seq<char>
    decreases n,
{
    if n <= 0 {
        Seq::empty()
    } else {
        json_candidates(cs, n - 1) + json_candidate(cs[n - 1], n == cs.len())
    }
}

/// The JSON detection report.
pub open spec fn spec_detection_json(r: ReportView) -> Seq<char> {
    "{\n"@ + "  \"image_count\": "@ + decimal(r.image_count as nat) + ",\n"@ + "  \"block_size\": "@
        + decimal(r.block_size as nat) + ",\n"@ + "  \"sampled_blocks\": "@ + decimal(r.sampled_blocks as nat)
        + ",\n"@ + "  \"type_stats\": {\n"@ + "    \"mirrored_blocks\": "@ + decimal(r.mirrored_blocks as nat)
        + ",\n"@ + "    \"parity_blocks\": "@ + decimal(r.parity_blocks as nat) + ",\n"@
        + "    \"unassigned_blocks\": "@ + decimal(r.unassigned_blocks as nat) + "\n"@ + "  },\n"@
        + "  \"candidates\": [\n"@ + json_candidates(r.candidates, r.candidates.len() as int) + "  ]\n"@ + "}\n"@
}

fn push_json_notes(out: &mut Vec<char>, notes: &Vec<String>)
    ensures
        final(out)@ == old(out)@ + json_notes(string_views(notes@), notes@.len() as int),
{
    let ghost start = out@;
    let ghost nv = string_views(notes@);
    let mut i: usize = 0;
    assert(out@ =~= start + json_notes(nv, 0));
    while i < notes.len()
        invariant
            nv == string_views(notes@),
            i <= notes@.len(),
            out@ == start + json_notes(nv, i as int),
        decreases notes@.len() - i,
    {
        let ghost before = out@;
        if i > 0 {
            push_str(out, ", ");
        }
        push_str(out, "\"");
        let escaped = escape(notes[i].as_str());
        push_str(out, escaped.as_str());
        push_str(out, "\"");
        assert(nv[i as int] == notes@[i as int]@);
        assert(out@ =~= start + json_notes(nv, i + 1));
        i = i + 1;
    }
}

fn push_json_candidate_head(out: &mut Vec<char>, c: &CandidateFields)
    ensures
        final(out)@ == old(out)@ + json_candidate_head(c@),
{
    let ghost start = out@;
    push_str(out, "    {\n");
    push_str(out, "      \"raid_type\": \"");
    let raid = escape(c.raid_type.as_str());
    push_str(out, raid.as_str());
    push_str(out, "\",\n");
    let ghost mid = out@;
    match c.stripe_size {
        Some(size) => {
            push_str(out, "      \"stripe_size\": ");
            push_decimal(out, size);
            push_str(out, ",\n");
        },
        None => push_str(out, "      \"stripe_size\": null,\n"),
    }
    assert(out@ =~= mid + json_stripe(c.stripe_size));
    push_str(out, "      \"score\": ");
    push_str(out, c.score.as_str());
    push_str(out, ",\n");
    assert(out@ =~= start + json_candidate_head(c@));
}

fn push_json_evidence(out: &mut Vec<char>, c: &CandidateFields)
    ensures
        final(out)@ == old(out)@ + json_evidence_numbers(c@) + json_evidence_notes(c@),
{
    let ghost start = out@;
    push_str(out, "      \"evidence\": {\n");
    push_str(out, "        \"type_score\": ");
    push_str(out, c.type_score.as_str());
    push_str(out, ",\n");
    push_str(out, "        \"stripe_votes\": ");
    push_decimal(out, c.stripe_votes);
    push_str(out, ",\n");
    push_str(out, "        \"stripe_vote_ratio\": ");
    push_str(out, c.stripe_vote_ratio.as_str());
    push_str(out, ",\n");
    assert(out@ =~= start + json_evidence_numbers(c@));
    let ghost mid = out@;
    push_str(out, "        \"notes\": [");
    push_json_notes(out, &c.notes);
    push_str(out, "]\n");
    push_str(out, "      }\n");
    assert(out@ =~= mid + json_evidence_notes(c@));
}

fn push_json_candidate(out: &mut Vec<char>, c: &CandidateFields, last: bool)
    ensures
        final(out)@ == old(out)@ + json_candidate(c@, last),
{
    let ghost start = out@;
    push_json_candidate_head(out, c);
    push_json_evidence(out, c);
    push_str(out, "    }");
    if !last {
        push_str(out, ",");
    }
    push_str(out, "\n");
    assert(out@ =~= start + json_candidate(c@, last));
}

/// The detection report as JSON.
pub fn detection_json(report: &ReportFields) -> (s: String)
    ensures
        s@ == spec_detection_json(report@),
{
    let mut out: Vec<char> = Vec::new();
    push_str(&mut out, "{\n");
    push_str(&mut out, "  \"image_count\": ");
    push_decimal(&mut out, report.image_count);
    push_str(&mut out, ",\n");
    push_str(&mut out, "  \"block_size\": ");
    push_decimal(&mut out, report.block_size);
    push_str(&mut out, ",\n");
    push_str(&mut out, "  \"sampled_blocks\": ");
    push_decimal(&mut out, report.sampled_blocks);
    push_str(&mut out, ",\n");
    push_str(&mut out, "  \"type_stats\": {\n");
    push_str(&mut out, "    \"mirrored_blocks\": ");
    push_decimal(&mut out, report.type_stats.mirrored_blocks);
    push_str(&mut out, ",\n");
    push_str(&mut out, "    \"parity_blocks\": ");
    push_decimal(&mut out, report.type_stats.parity_blocks);
    push_str(&mut out, ",\n");
    push_str(&mut out, "    \"unassigned_blocks\": ");
    push_decimal(&mut out, report.type_stats.unassigned_blocks);
    push_str(&mut out, "\n");
    push_str(&mut out, "  },\n");
    push_str(&mut out, "  \"candidates\": [\n");
    let ghost head = out@;
    let ghost cs = report@.candidates;
    let mut i: usize = 0;
    assert(out@ =~= head + json_candidates(cs, 0));
    while i < report.candidates.len()
        invariant
            cs == report@.candidates,
            i <= report.candidates@.len(),
            out@ == head + json_candidates(cs, i as int),
        decreases report.candidates@.len() - i,
    {
        let last = i + 1 == report.candidates.len();
        push_json_candidate(&mut out, &report.candidates[i], last);
        assert(out@ =~= head + json_candidates(cs, i + 1));
        i = i + 1;
    }
    push_str(&mut out, "  ]\n");
    push_str(&mut out, "}\n");
    assert(out@ =~= spec_detection_json(report@));
    string_of(&out)
}

/// The first `n` of `parts`, joined with `sep`.
pub open spec fn join_prefix(parts: Seq<Seq<char>>, sep: Seq<char>, n: int) -> Seq<char>
    decreases n,
{
    if n <= 0 {
        Seq::empty()
    } else {
        join_prefix(parts, sep, n - 1) + (if n > 1 { sep } else { Seq::empty() }) + parts[n - 1]
    }
}

/// A stripe size in the Markdown table: the number, or `unknown`.
pub open spec fn md_stripe(stripe: Option<usize>) -> Seq<char> {
    match stripe {
        Some(n) => decimal(n as nat),
        None => "unknown"@,
    }
}

/// The table row of the candidate ranked `rank`.
pub open spec fn md_row(rank: nat, c: CandidateView) -> Seq<char> {
    "| "@ + decimal(rank) + " | "@ + c.raid_type + " | "@ + md_stripe(c.stripe_size) + " | "@ + c.score_short
        + " | "@ + decimal(c.stripe_votes as nat) + " | "@ + join_prefix(c.notes, "; "@, c.notes.len() as int)
        + " |\n"@
}

/// The table rows of the first `n` candidates, ranked from 1.
pub open spec fn md_rows(cs: Seq<CandidateView>, n: int) -> Seq<char>
    decreases n,
{
    if n <= 0 {
        Seq::empty()
    } else {
        md_rows(cs, n - 1) + md_row(n as nat, cs[n - 1])
    }
}

/// The summary and type evidence sections of the Markdown report.
pub open spec fn md_head(r: ReportView) -> Seq<char> {
    "# RAID-reassemble Detection Report\n\n"@ + "## Summary\n\n"@ + "- Images: "@ + decimal(r.image_count as nat)
        + "\n"@ + "- Block size: "@ + decimal(r.block_size as nat) + "\n"@ + "- Sampled blocks: "@
        + decimal(r.sampled_blocks as nat) + "\n\n"@ + "## Type Evidence\n\n"@
        + "| Metric | Count |\n| --- | ---: |\n"@ + "| Mirrored blocks | "@ + decimal(r.mirrored_blocks as nat)
        + " |\n"@ + "| Parity blocks | "@ + decimal(r.parity_blocks as nat) + " |\n"@ + "| Unassigned blocks | "@
        + decimal(r.unassigned_blocks as nat) + " |\n\n"@
}

/// The closing section of the Markdown report.
pub open spec fn md_risk_notes() -> Seq<char> {
    "\n## Risk Notes\n\n"@ + "- This result is heuristic evidence, not absolute proof.\n"@
        + "- High-entropy encrypted or randomly filled images can defeat entropy boundary detection.\n"@
        + "- RAID-0 disk order inference remains weak without filesystem validation.\n"@
}

/// The Markdown detection report.
pub open spec fn spec_detection_markdown(r: ReportView) -> Seq<char> {
    md_head(r) + "## Candidates\n\n"@ + "| Rank | RAID | Stripe size | Score | Stripe votes | Notes |\n"@
        + "| ---: | --- | ---: | ---: | ---: | --- |\n"@ + md_rows(r.candidates, r.candidates.len() as int)
        + md_risk_notes()
}

fn push_joined(out: &mut Vec<char>, parts: &Vec<String>, sep: &str)
    ensures
        final(out)@ == old(out)@ + join_prefix(string_views(parts@), sep@, parts@.len() as int),
{
    let ghost start = out@;
    let ghost pv = string_views(parts@);
    let mut i: usize = 0;
    assert(out@ =~= start + join_prefix(pv, sep@, 0));
    while i < parts.len()
        invariant
            pv == string_views(parts@),
            i <= parts@.len(),
            out@ == start + join_prefix(pv, sep@, i as int),
        decreases parts@.len() - i,
    {
        if i > 0 {
            push_str(out, sep);
        }
        push_str(out, parts[i].as_str());
        assert(pv[i as int] == parts@[i as int]@);
        assert(out@ =~= start + join_prefix(pv, sep@, i + 1));
        i = i + 1;
    }
}

fn push_md_row(out: &mut Vec<char>, rank: usize, c: &CandidateFields)
    ensures
        final(out)@ == old(out)@ + md_row(rank as nat, c@),
{
    let ghost start = out@;
    push_str(out, "| ");
    push_decimal(out, rank);
    push_str(out, " | ");
    push_str(out, c.raid_type.as_str());
    push_str(out, " | ");
    let ghost mid = out@;
    match c.stripe_size {
        Some(size) => push_decimal(out, size),
        None => push_str(out, "unknown"),
    }
    assert(out@ =~= mid + md_stripe(c.stripe_size));
    push_str(out, " | ");
    push_str(out, c.score_short.as_str());
    push_str(out, " | ");
    push_decimal(out, c.stripe_votes);
    push_str(out, " | ");
    push_joined(out, &c.notes, "; ");
    push_str(out, " |\n");
    assert(out@ =~= start + md_row(rank as nat, c@));
}

fn push_md_head(out: &mut Vec<char>, report: &ReportFields)
    ensures
        final(out)@ == old(out)@ + md_head(report@),
{
    let ghost start = out@;
    push_str(out, "# RAID-reassemble Detection Report\n\n");
    push_str(out, "## Summary\n\n");
    push_str(out, "- Images: ");
    push_decimal(out, report.image_count);
    push_str(out, "\n");
    push_str(out, "- Block size: ");
    push_decimal(out, report.block_size);
    push_str(out, "\n");
    push_str(out, "- Sampled blocks: ");
    push_decimal(out, report.sampled_blocks);
    push_str(out, "\n\n");
    let ghost mid = out@;
    assert(mid =~= start + ("# RAID-reassemble Detection Report\n\n"@ + "## Summary\n\n"@ + "- Images: "@
        + decimal(report.image_count as nat) + "\n"@ + "- Block size: "@ + decimal(report.block_size as nat)
        + "\n"@ + "- Sampled blocks: "@ + decimal(report.sampled_blocks as nat) + "\n\n"@));
    push_str(out, "## Type Evidence\n\n");
    push_str(out, "| Metric | Count |\n| --- | ---: |\n");
    push_str(out, "| Mirrored blocks | ");
    push_decimal(out, report.type_stats.mirrored_blocks);
    push_str(out, " |\n");
    push_str(out, "| Parity blocks | ");
    push_decimal(out, report.type_stats.parity_blocks);
    push_str(out, " |\n");
    push_str(out, "| Unassigned blocks | ");
    push_decimal(out, report.type_stats.unassigned_blocks);
    push_str(out, " |\n\n");
    assert(out@ =~= start + md_head(report@));
}

/// The detection report as Markdown.
pub fn detection_markdown(report: &ReportFields) -> (s: String)
    ensures
        s@ == spec_detection_markdown(report@),
{
    let mut out: Vec<char> = Vec::new();
    push_md_head(&mut out, report);
    push_str(&mut out, "## Candidates\n\n");
    push_str(&mut out, "| Rank | RAID | Stripe size | Score | Stripe votes | Notes |\n");
    push_str(&mut out, "| ---: | --- | ---: | ---: | ---: | --- |\n");
    let ghost head = out@;
    let ghost cs = report@.candidates;
    let mut i: usize = 0;
    assert(out@ =~= head + md_rows(cs, 0));
    while i < report.candidates.len()
        invariant
            cs == report@.candidates,
            i <= report.candidates@.len(),
            out@ == head + md_rows(cs, i as int),
        decreases report.candidates@.len() - i,
    {
        push_md_row(&mut out, i + 1, &report.candidates[i]);
        assert(out@ =~= head + md_rows(cs, i + 1));
        i = i + 1;
    }
    let ghost body = out@;
    push_str(&mut out, "\n## Risk Notes\n\n");
    push_str(&mut out, "- This result is heuristic evidence, not absolute proof.\n");
    push_str(&mut out, "- High-entropy encrypted or randomly filled images can defeat entropy boundary detection.\n");
    push_str(&mut out, "- RAID-0 disk order inference remains weak without filesystem validation.\n");
    assert(out@ =~= body + md_risk_notes());
    assert(out@ =~= spec_detection_markdown(report@));
    string_of(&out)
}

/// A stripe size in the console summary: `format_size` of it, or `unknown`.
pub open spec fn summary_stripe(stripe: Option<usize>) -> Seq<char> {
    match stripe {
        Some(n) => spec_format_size(n as nat),
        None => "unknown"@,
    }
}

/// The console line of the candidate ranked `rank`.
pub open spec fn summary_line(rank: nat, c: CandidateView) -> Seq<char> {
    "  "@ + decimal(rank) + ". "@ + c.raid_type + " stripe="@ + summary_stripe(c.stripe_size) + " score="@
        + c.score_short + " votes="@ + decimal(c.stripe_votes as nat) + "\n"@
}

/// The console lines of the first `n` candidates, ranked from 1.
pub open spec fn summary_lines(cs: Seq<CandidateView>, n: int) -> Seq<char>
    decreases n,
{
    if n <= 0 {
        Seq::empty()
    } else {
        summary_lines(cs, n - 1) + summary_line(n as nat, cs[n - 1])
    }
}

/// The console summary of a detection report.
pub open spec fn spec_human_summary(r: ReportView) -> Seq<char> {
    "RAID-reassemble detect\n"@ + "images: "@ + decimal(r.image_count as nat) + "\n"@ + "block_size: "@
        + decimal(r.block_size as nat) + "\n"@ + "type_stats: mirrored="@ + decimal(r.mirrored_blocks as nat)
        + " parity="@ + decimal(r.parity_blocks as nat) + " unassigned="@ + decimal(r.unassigned_blocks as nat)
        + "\n"@ + "candidates:\n"@ + summary_lines(r.candidates, r.candidates.len() as int)
}

fn push_summary_line(out: &mut Vec<char>, rank: usize, c: &CandidateFields)
    ensures
        final(out)@ == old(out)@ + summary_line(rank as nat, c@),
{
    let ghost start = out@;
    push_str(out, "  ");
    push_decimal(out, rank);
    push_str(out, ". ");
    push_str(out, c.raid_type.as_str());
    push_str(out, " stripe=");
    let ghost mid = out@;
    match c.stripe_size {
        Some(size) => {
            let text = format_size(size);
            push_str(out, text.as_str());
        },
        None => push_str(out, "unknown"),
    }
    assert(out@ =~= mid + summary_stripe(c.stripe_size));
    push_str(out, " score=");
    push_str(out, c.score_short.as_str());
    push_str(out, " votes=");
    push_decimal(out, c.stripe_votes);
    push_str(out, "\n");
    assert(out@ =~= start + summary_line(rank as nat, c@));
}

impl ReportFields {
    /// The console summary of the report.
    pub fn human_summary(&self) -> (s: String)
        ensures
            s@ == spec_human_summary(self@),
    {
        let mut out: Vec<char> = Vec::new();
        push_str(&mut out, "RAID-reassemble detect\n");
        push_str(&mut out, "images: ");
        push_decimal(&mut out, self.image_count);
        push_str(&mut out, "\n");
        push_str(&mut out, "block_size: ");
        push_decimal(&mut out, self.block_size);
        push_str(&mut out, "\n");
        push_str(&mut out, "type_stats: mirrored=");
        push_decimal(&mut out, self.type_stats.mirrored_blocks);
        push_str(&mut out, " parity=");
        push_decimal(&mut out, self.type_stats.parity_blocks);
        push_str(&mut out, " unassigned=");
        push_decimal(&mut out, self.type_stats.unassigned_blocks);
        push_str(&mut out, "\n");
        push_str(&mut out, "candidates:\n");
        let ghost head = out@;
        let ghost cs = self@.candidates;
        let mut i: usize = 0;
        assert(out@ =~= head + summary_lines(cs, 0));
        while i < self.candidates.len()
            invariant
                cs == self@.candidates,
                i <= self.candidates@.len(),
                out@ == head + summary_lines(cs, i as int),
            decreases self.candidates@.len() - i,
        {
            push_summary_line(&mut out, i + 1, &self.candidates[i]);
            assert(out@ =~= head + summary_lines(cs, i + 1));
            i = i + 1;
        }
        assert(out@ =~= spec_human_summary(self@));
        string_of(&out)
    }
}

} // verus!
