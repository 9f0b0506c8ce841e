//! Selection protocol: rendering catalog entries into the line-picker's
//! candidate format, matching the picker's answer back to an entry,
//! splitting trailing argument text, and deciding what one selection round
//! does to the usage history.

use vstd::prelude::*;

use crate::catalog::{Program, ProgramV, source_marker};
use crate::history::{bumped, History, HistoryEntry};
use crate::rank::catalog_views;
use crate::text::{is_prefix, is_prefix_exec};
use vstd::string::StringExecFns;

verus! {

/// The label an entry is rendered under: its source marker, `"] "`, and
/// its display title.
pub open spec fn label_of(p: ProgramV) -> Seq<char> {
    source_marker(p.source) + "] "@ + p.title
}

/// A label with the delimiter that closes it in a returned line.
pub open spec fn label_colon(p: ProgramV) -> Seq<char> {
    label_of(p) + ":"@
}

/// The full candidate line sent to the picker for one entry.
pub open spec fn line_of(p: ProgramV) -> Seq<char> {
    label_of(p) + ": \n"@
}

/// All candidate lines, in catalog order.
pub open spec fn rendered_lines(ps: Seq<ProgramV>) -> Seq<char>
    decreases ps.len(),
{
    if ps.len() == 0 {
        Seq::empty()
    } else {
        rendered_lines(ps.drop_last()) + line_of(ps.last())
    }
}

/// Renders the label of one entry.
pub fn format_program_display_name(program: &Program) -> (r: String)
    ensures
        r@ == label_of(program@),
{
    let mut s = String::from_str(program.source.display_name());
    s.append("] ");
    s.append(program.title.as_str());
    s
}

/// Renders the candidate list sent as the picker's whole input.
pub fn render_candidates(progs: &Vec<Program>) -> (r: String)
    ensures
        r@ == rendered_lines(catalog_views(progs@)),
{
    let mut acc = String::new();
    let mut i: usize = 0;
    proof {
        assert(catalog_views(progs@).take(0) =~= Seq::<ProgramV>::empty());
    }
    while i < progs.len()
        invariant
            i <= progs@.len(),
            acc@ == rendered_lines(catalog_views(progs@).take(i as int)),
        decreases progs@.len() - i,
    {
        let lab = format_program_display_name(&progs[i]);
        acc.append(lab.as_str());
        acc.append(": \n");
        proof {
            let vs = catalog_views(progs@);
            assert(vs.take(i + 1).drop_last() =~= vs.take(i as int));
            assert(vs.take(i + 1).last() == vs[i as int]);
            assert(vs[i as int] == progs@[i as int]@);
        }
        i = i + 1;
    }
    proof {
        assert(catalog_views(progs@).take(progs@.len() as int) =~= catalog_views(progs@));
    }
    acc
}

/// Entry `k` is the first whose label-and-delimiter prefixes `line`.
pub open spec fn matches_at(ps: Seq<Program>, line: Seq<char>, k: int) -> bool {
    &&& 0 <= k < ps.len()
    &&& is_prefix(label_colon(ps[k]@), line)
    &&& forall|j: int| 0 <= j < k ==> !is_prefix(label_colon(#[trigger] ps[j]@), line)
}

/// No entry's label-and-delimiter prefixes `line`.
pub open spec fn no_match(ps: Seq<Program>, line: Seq<char>) -> bool {
    forall|j: int| 0 <= j < ps.len() ==> !is_prefix(label_colon(#[trigger] ps[j]@), line)
}

/// A line prefixed by some entry's label always has a first matching
/// entry: a selection round ends in `Unmatched` exactly when no label
/// matches.
pub proof fn lemma_first_match(ps: Seq<Program>, line: Seq<char>, j: int)
    requires
        0 <= j < ps.len(),
        is_prefix(label_colon(ps[j]@), line),
    ensures
        exists|k: int| #[trigger] matches_at(ps, line, k),
    decreases j,
{
    if forall|q: int| 0 <= q < j ==> !is_prefix(label_colon(#[trigger] ps[q]@), line) {
        assert(matches_at(ps, line, j));
    } else {
        let q = choose|q: int| 0 <= q < j && is_prefix(label_colon(#[trigger] ps[q]@), line);
        lemma_first_match(ps, line, q);
    }
}

/// Round trip of rendering and matching: a returned line that carries an
/// entry's own label and delimiter is never unmatched.
pub proof fn lemma_rendered_line_matches(ps: Seq<Program>, k: int)
    requires
        0 <= k < ps.len(),
    ensures
        exists|m: int| #[trigger] matches_at(ps, label_colon(ps[k]@), m),
{
    let lc = label_colon(ps[k]@);
    assert(is_prefix(lc, lc)) by {
        assert(lc.subrange(0, lc.len() as int) =~= lc);
    }
    lemma_first_match(ps, lc, k);
}

/// Finds the first entry whose rendered label, closed by the delimiter,
/// is a prefix of the returned line.
pub fn match_selection(progs: &Vec<Program>, line: &str) -> (r: Option<usize>)
    ensures
        match r {
            Some(k) => matches_at(progs@, line@, k as int),
            None => no_match(progs@, line@),
        },
{
    let mut j: usize = 0;
    while j < progs.len()
        invariant
            j <= progs@.len(),
            forall|q: int| 0 <= q < j ==> !is_prefix(label_colon(#[trigger] progs@[q]@), line@),
        decreases progs@.len() - j,
    {
        let mut lab = format_program_display_name(&progs[j]);
        lab.append(":");
        if is_prefix_exec(lab.as_str(), line) {
            return Some(j);
        }
        j = j + 1;
    }
    None
}

/// What `shlex::split` returns for a given input: the shell-style token
/// list, or nothing when the quoting is erroneous.
pub uninterp spec fn shell_tokens(s: Seq<char>) -> Option<Seq<Seq<char>>>;

/// Relies on shlex::split: splits a string into shell-quoting-style
/// tokens, returning None exactly on erroneous input; the result depends
/// on the input characters alone.
#[verifier::external_body]
fn shell_split(s: &str) -> (r: Option<Vec<String>>)
    ensures
        match r {
            Some(v) => shell_tokens(s@) == Some(v@.map_values(|t: String| t@)),
            None => shell_tokens(s@) is None,
        },
{
    shlex::split(s)
}

/// Splits free-form argument text by shell quoting rules.
pub fn split_args(s: &str) -> (r: Option<Vec<String>>)
    ensures
        match r {
            Some(v) => shell_tokens(s@) == Some(v@.map_values(|t: String| t@)),
            None => shell_tokens(s@) is None,
        },
{
    shell_split(s)
}

/// The outcome of one selection round.
pub enum SelectionOutcome {
    /// The picker exited without success: user cancellation.
    Cancelled,
    /// The returned line matched no rendered label.
    Unmatched,
    /// Trailing argument text failed to tokenize.
    BadArgs,
    /// Entry `index` was chosen, to be launched with `args`.
    Launch { index: usize, args: Vec<String> },
}

/// What a selection round with matched entry `k` and outcome `r` must
/// satisfy, given the old history `h0` and the new history `h1`.
pub open spec fn matched_outcome(
    ps: Seq<Program>,
    line: Seq<char>,
    k: int,
    h0: Map<Seq<char>, HistoryEntry>,
    h1: Map<Seq<char>, HistoryEntry>,
    now: u64,
    r: SelectionOutcome,
) -> bool {
    let lc = label_colon(ps[k]@);
    if line.len() <= lc.len() {
        // No argument text: launch with no arguments.
        &&& (r matches SelectionOutcome::Launch { index, args } ==> index == k && args@.len() == 0)
        &&& r is Launch
        &&& h1 == h0.insert(ps[k]@.abs_path, bumped(h0, ps[k]@.abs_path, now))
    } else {
        let tail = line.subrange(lc.len() as int, line.len() as int);
        match shell_tokens(tail) {
            Option::None => r is BadArgs && h1 == h0,
            Option::Some(ts) => {
                &&& (r matches SelectionOutcome::Launch { index, args } ==> index == k
                    && args@.map_values(|t: String| t@) == ts)
                &&& r is Launch
                &&& h1 == h0.insert(ps[k]@.abs_path, bumped(h0, ps[k]@.abs_path, now))
            },
        }
    }
}

/// Decides one selection round: `picker` carries the picker's trimmed
/// answer, or nothing when the picker exited without success. Only a
/// matched line with well-formed argument text records a launch; a
/// cancellation, an unmatched line, or malformed argument text leaves the
/// history unchanged.
pub fn process_selection(
    progs: &Vec<Program>,
    hist: &mut History,
    picker: Option<&str>,
    now: u64,
) -> (r: SelectionOutcome)
    requires
        old(hist).wf(),
        forall|i: int|
            0 <= i < progs@.len() && old(hist)@.contains_key(
                (#[trigger] progs@[i])@.abs_path,
            ) ==> old(hist)@[progs@[i]@.abs_path].rank < u32::MAX,
    ensures
        final(hist).wf(),
        match picker {
            Option::None => r is Cancelled && final(hist)@ == old(hist)@,
            Option::Some(line) => {
                &&& !(r is Cancelled)
                &&& (no_match(progs@, line@) ==> r is Unmatched && final(hist)@ == old(hist)@)
                &&& ((exists|k: int| #[trigger] matches_at(progs@, line@, k)) ==> exists|k: int|
                    #[trigger] matches_at(progs@, line@, k) && matched_outcome(
                        progs@,
                        line@,
                        k,
                        old(hist)@,
                        final(hist)@,
                        now,
                        r,
                    ))
                &&& (r is Unmatched ==> no_match(progs@, line@))
            },
        },
{
    match picker {
        None => SelectionOutcome::Cancelled,
        Some(line) => {
            match match_selection(progs, line) {
                None => SelectionOutcome::Unmatched,
                Some(k) => {
                    let mut lab = format_program_display_name(&progs[k]);
                    lab.append(":");
                    let llen = lab.as_str().unicode_len();
                    let ilen = line.unicode_len();
                    if ilen > llen {
                        let tail = line.substring_char(llen, ilen);
                        match shell_split(tail) {
                            None => {
                                proof {
                                    assert(matches_at(progs@, line@, k as int));
                                    assert(!no_match(progs@, line@));
                                    assert(matched_outcome(
                                        progs@,
                                        line@,
                                        k as int,
                                        old(hist)@,
                                        hist@,
                                        now,
                                        SelectionOutcome::BadArgs,
                                    ));
                                }
                                SelectionOutcome::BadArgs
                            },
                            Some(args) => {
                                hist.record_launch(&progs[k].abs_path, now);
                                let r = SelectionOutcome::Launch { index: k, args };
                                proof {
                                    assert(matches_at(progs@, line@, k as int));
                                    assert(!no_match(progs@, line@));
                                }
                                r
                            },
                        }
                    } else {
                        hist.record_launch(&progs[k].abs_path, now);
                        let r = SelectionOutcome::Launch { index: k, args: Vec::new() };
                        proof {
                            assert(matches_at(progs@, line@, k as int));
                            assert(!no_match(progs@, line@));
                        }
                        r
                    }
                },
            }
        },
    }
}

/// The argument list handed to the launcher shell: `/c start "" <path>`
/// followed by the extracted arguments.
pub fn build_launch_args(path: &String, args: &Vec<String>) -> (r: Vec<String>)
    ensures
        r@.len() == 4 + args@.len(),
        r@[0]@ == "/c"@,
        r@[1]@ == "start"@,
        r@[2]@ == Seq::<char>::empty(),
        r@[3]@ == path@,
        forall|i: int| 0 <= i < args@.len() ==> r@[4 + i]@ == (#[trigger] args@[i])@,
{
    let mut r: Vec<String> = Vec::new();
    r.push(String::from_str("/c"));
    r.push(String::from_str("start"));
    r.push(String::new());
    r.push(path.clone());
    let mut i: usize = 0;
    while i < args.len()
        invariant
            i <= args@.len(),
            r@.len() == 4 + i,
            r@[0]@ == "/c"@,
            r@[1]@ == "start"@,
            r@[2]@ == Seq::<char>::empty(),
            r@[3]@ == path@,
            forall|j: int| 0 <= j < i ==> r@[4 + j]@ == (#[trigger] args@[j])@,
        decreases args@.len() - i,
    {
        r.push(args[i].clone());
        i = i + 1;
    }
    r
}

} // verus!
