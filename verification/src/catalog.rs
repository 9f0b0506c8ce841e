//! Catalog building: filtering discovered files by executable-like extension
//! and recursion policy, and deduplicating them by case-folded absolute path,
//! last writer winning.

use vstd::prelude::*;

use crate::text::{fold_chars, fold_eq};

verus! {

/// Provenance of a catalog entry.
#[derive(Clone, Copy, PartialEq, Eq, Structural, Debug)]
pub enum SourceType {
    StartMenu,
    Path,
}

/// One-character marker that identifies a source kind in rendered labels.
pub open spec fn source_marker(s: SourceType) -> Seq<char> {
    match s {
        SourceType::StartMenu => "S"@,
        SourceType::Path => "P"@,
    }
}

impl SourceType {
    /// Short display code for this source kind.
    pub fn display_name(&self) -> (r: &'static str)
        ensures
            r@ == source_marker(*self),
    {
        match *self {
            SourceType::StartMenu => "S",
            SourceType::Path => "P",
        }
    }
}

/// A launchable entry of the catalog.
pub struct Program {
    pub title: String,
    pub source: SourceType,
    pub abs_path: String,
}

/// Mathematical value of a `Program`.
pub struct ProgramV {
    pub title: Seq<char>,
    pub source: SourceType,
    pub abs_path: Seq<char>,
}

impl View for Program {
    type V = ProgramV;

    open spec fn view(&self) -> ProgramV {
        ProgramV { title: self.title@, source: self.source, abs_path: self.abs_path@ }
    }
}

/// A file discovered during a walk of one configured root, before filtering.
pub struct RawEntry {
    /// Absolute path of the file.
    pub abs_path: String,
    /// Path relative to the discovery root, used for display.
    pub title: String,
    /// Source kind of the root the file was found under.
    pub source: SourceType,
    /// Whether the file sits in a subdirectory of the root rather than in
    /// the root itself.
    pub nested: bool,
    /// Whether the root is configured for recursive scanning.
    pub root_recursive: bool,
}

/// Mathematical value of a `RawEntry`.
pub struct RawEntryV {
    pub abs_path: Seq<char>,
    pub title: Seq<char>,
    pub source: SourceType,
    pub nested: bool,
    pub root_recursive: bool,
}

impl View for RawEntry {
    type V = RawEntryV;

    open spec fn view(&self) -> RawEntryV {
        RawEntryV {
            abs_path: self.abs_path@,
            title: self.title@,
            source: self.source,
            nested: self.nested,
            root_recursive: self.root_recursive,
        }
    }
}

/// Path separators recognised when locating the final path component.
pub open spec fn is_sep(c: char) -> bool {
    c == '/' || c == '\\'
}

/// Index of the last separator of `s`, or `-1` if there is none.
pub open spec fn last_sep(s: Seq<char>) -> int
    decreases s.len(),
{
    if s.len() == 0 {
        -1
    } else if is_sep(s.last()) {
        s.len() - 1
    } else {
        last_sep(s.drop_last())
    }
}

/// Index of the last `'.'` of `s`, or `-1` if there is none.
pub open spec fn last_dot(s: Seq<char>) -> int
    decreases s.len(),
{
    if s.len() == 0 {
        -1
    } else if s.last() == '.' {
        s.len() - 1
    } else {
        last_dot(s.drop_last())
    }
}

/// Whether `s` has a file extension: a `'.'` inside the final path
/// component that is neither the component's first character nor the last
/// character of the path.
pub open spec fn has_ext(s: Seq<char>) -> bool {
    last_dot(s) > last_sep(s) + 1 && last_dot(s) < s.len() - 1
}

/// The extension of `s`: everything after the last `'.'`.
pub open spec fn ext_of(s: Seq<char>) -> Seq<char> {
    s.subrange(last_dot(s) + 1, s.len() as int)
}

/// The fixed allow-list of executable-like extensions, compared
/// case-insensitively.
pub open spec fn allowed_ext(e: Seq<char>) -> bool {
    e == "exe"@ || e == "lnk"@ || e == "bat"@ || e == "cmd"@ || e == "com"@
}

/// Whether the path `s` carries an allow-listed extension.
pub open spec fn path_accepted(s: Seq<char>) -> bool {
    has_ext(s) && allowed_ext(fold_chars(ext_of(s)))
}

/// Whether a discovered file belongs in the catalog: its extension is
/// allow-listed, and it is either directly in its root or its root is
/// scanned recursively.
pub open spec fn included(e: RawEntryV) -> bool {
    path_accepted(e.abs_path) && (e.root_recursive || !e.nested)
}

/// The deduplication key of a path: its case-folded characters.
pub open spec fn key_of(p: Seq<char>) -> Seq<char> {
    fold_chars(p)
}

/// The catalog entry a raw discovery turns into.
pub open spec fn program_of(e: RawEntryV) -> ProgramV {
    ProgramV { title: e.title, source: e.source, abs_path: e.abs_path }
}

/// Entry `i` of `es` is included and no later included entry shares its
/// key, so its data survives deduplication.
pub open spec fn wins(es: Seq<RawEntry>, i: int) -> bool {
    &&& 0 <= i < es.len()
    &&& included(es[i]@)
    &&& forall|j: int|
        i < j < es.len() ==> !(included(#[trigger] es[j]@) && key_of(es[j]@.abs_path) == key_of(
            es[i]@.abs_path,
        ))
}

/// Slot `k` of the catalog `r` holds the data of some winning discovery.
pub open spec fn from_winner(es: Seq<RawEntry>, r: Seq<Program>, k: int) -> bool {
    exists|i: int| #[trigger] wins(es, i) && r[k]@ == program_of(es[i]@)
}

/// The data of discovery `i` stands in some slot of the catalog `r`.
pub open spec fn winner_present(es: Seq<RawEntry>, r: Seq<Program>, i: int) -> bool {
    exists|k: int| 0 <= k < r.len() && #[trigger] r[k]@ == program_of(es[i]@)
}

/// Executable test for `path_accepted`.
pub fn path_ext_allowed(s: &str) -> (r: bool)
    ensures
        r == path_accepted(s@),
{
    let len = s.unicode_len();
    // One past the last separator seen so far, 0 for none.
    let mut sep1: usize = 0;
    // One past the last dot seen so far, 0 for none.
    let mut dot1: usize = 0;
    let mut i: usize = 0;
    proof {
        assert(s@.take(0) =~= Seq::<char>::empty());
    }
    while i < len
        invariant
            len == s@.len(),
            i <= len,
            sep1 <= i,
            dot1 <= i,
            sep1 as int - 1 == last_sep(s@.take(i as int)),
            dot1 as int - 1 == last_dot(s@.take(i as int)),
        decreases len - i,
    {
        let c = s.get_char(i);
        let x: u32 = c as u32;
        proof {
            assert(s@.take(i + 1).drop_last() =~= s@.take(i as int));
            assert(s@.take(i + 1).last() == s@[i as int]);
        }
        if x == 47 || x == 92 {
            proof {
                assert(c as int == 47 || c as int == 92);
                assert(c == '/' || c == '\\');
            }
            sep1 = i + 1;
        } else if x == 46 {
            proof {
                assert(c as int == 46);
                assert(c == '.');
            }
            dot1 = i + 1;
        } else {
            proof {
                assert(c as int != 47 && c as int != 92 && c as int != 46);
                assert(!is_sep(c) && c != '.');
            }
        }
        i = i + 1;
    }
    proof {
        assert(s@.take(len as int) =~= s@);
    }
    if !(dot1 >= 1 && dot1 - 1 > sep1 && dot1 < len) {
        return false;
    }
    // The path has an extension; all allow-listed extensions have three
    // characters.
    proof {
        reveal_strlit("exe");
        reveal_strlit("lnk");
        reveal_strlit("bat");
        reveal_strlit("cmd");
        reveal_strlit("com");
    }
    let elen = len - dot1;
    if elen != 3 {
        proof {
            assert(ext_of(s@).len() == len - dot1);
            assert(fold_chars(ext_of(s@)).len() == ext_of(s@).len());
        }
        return false;
    }
    let e0 = crate::text::fold_code_of(s.get_char(dot1));
    let e1 = crate::text::fold_code_of(s.get_char(dot1 + 1));
    let e2 = crate::text::fold_code_of(s.get_char(dot1 + 2));
    let ok = (e0 == 101 && e1 == 120 && e2 == 101) || (e0 == 108 && e1 == 110 && e2 == 107) || (e0
        == 98 && e1 == 97 && e2 == 116) || (e0 == 99 && e1 == 109 && e2 == 100) || (e0 == 99 && e1
        == 111 && e2 == 109)
    ;
    proof {
        let ext = ext_of(s@);
        let f = fold_chars(ext);
        assert(ext.len() == 3);
        assert(f.len() == 3);
        assert(ext[0] == s@[dot1 as int] && ext[1] == s@[dot1 + 1] && ext[2] == s@[dot1 + 2]);
        assert(f[0] == crate::text::fold_char(ext[0]) && f[1] == crate::text::fold_char(ext[1])
            && f[2] == crate::text::fold_char(ext[2]));
        crate::text::lemma_fold_code_values(s@[dot1 as int]);
        crate::text::lemma_fold_code_values(s@[dot1 + 1]);
        crate::text::lemma_fold_code_values(s@[dot1 + 2]);
        if ok {
            assert(f =~= "exe"@ || f =~= "lnk"@ || f =~= "bat"@ || f =~= "cmd"@ || f =~= "com"@);
        } else {
            if f == "exe"@ || f == "lnk"@ || f == "bat"@ || f == "cmd"@ || f == "com"@ {
                assert(ok);
            }
        }
    }
    ok
}

/// `s` with its leading path separators removed.
pub open spec fn drop_leading_seps(s: Seq<char>) -> Seq<char>
    decreases s.len(),
{
    if s.len() > 0 && is_sep(s[0]) {
        drop_leading_seps(s.drop_first())
    } else {
        s
    }
}

/// The display title of a file at `abs` discovered under the root `root`:
/// the path relative to the root, i.e. `abs` with the root and the
/// separators that follow it removed.
pub open spec fn rel_title_of(abs: Seq<char>, root: Seq<char>) -> Seq<char> {
    drop_leading_seps(abs.subrange(root.len() as int, abs.len() as int))
}

/// Computes the display title of a discovered file: the path relative to
/// its discovery root, or nothing when `abs` does not lie under `root`.
pub fn relative_title(abs: &str, root: &str) -> (r: Option<String>)
    ensures
        match r {
            Some(t) => crate::text::is_prefix(root@, abs@) && t@ == rel_title_of(abs@, root@),
            None => !crate::text::is_prefix(root@, abs@),
        },
{
    if !crate::text::is_prefix_exec(root, abs) {
        return None;
    }
    let len = abs.unicode_len();
    let mut i: usize = root.unicode_len();
    while i < len && sep_at(abs, i)
        invariant
            len == abs@.len(),
            i <= len,
            rel_title_of(abs@, root@) == drop_leading_seps(abs@.subrange(i as int, len as int)),
        decreases len - i,
    {
        proof {
            let rest = abs@.subrange(i as int, len as int);
            assert(rest[0] == abs@[i as int]);
            assert(rest.drop_first() =~= abs@.subrange(i + 1, len as int));
        }
        i = i + 1;
    }
    let t = abs.substring_char(i, len);
    proof {
        let rest = abs@.subrange(i as int, len as int);
        if rest.len() > 0 {
            assert(rest[0] == abs@[i as int]);
        }
        assert(drop_leading_seps(rest) == rest);
    }
    Some(String::from_str(t))
}

/// Whether the character at position `i` is a path separator.
fn sep_at(s: &str, i: usize) -> (r: bool)
    requires
        i < s@.len(),
    ensures
        r == is_sep(s@[i as int]),
{
    let c = s.get_char(i);
    let x: u32 = c as u32;
    proof {
        if x == 47 || x == 92 {
            assert(c as int == 47 || c as int == 92);
            assert(is_sep(c));
        } else {
            assert(c as int != 47 && c as int != 92);
            assert(!is_sep(c));
        }
    }
    x == 47 || x == 92
}

/// Position of an already-catalogued program with the same folded path,
/// if one exists.
fn find_key(r: &Vec<Program>, path: &String) -> (res: Option<usize>)
    ensures
        match res {
            Some(k) => k < r@.len() && key_of(r@[k as int]@.abs_path) == key_of(path@),
            None => forall|k: int|
                0 <= k < r@.len() ==> key_of(#[trigger] r@[k]@.abs_path) != key_of(path@),
        },
{
    let mut k: usize = 0;
    while k < r.len()
        invariant
            k <= r@.len(),
            forall|j: int| 0 <= j < k ==> key_of(#[trigger] r@[j]@.abs_path) != key_of(path@),
        decreases r@.len() - k,
    {
        if fold_eq(r[k].abs_path.as_str(), path.as_str()) {
            return Some(k);
        }
        k = k + 1;
    }
    None
}

/// How `wins` over a prefix of the discoveries changes when the prefix
/// grows by one entry.
proof fn lemma_wins_extend(es: Seq<RawEntry>, n: int)
    requires
        0 <= n < es.len(),
    ensures
        forall|i: int|
            0 <= i < n ==> ((#[trigger] wins(es.take(n + 1), i)) <==> (wins(es.take(n), i) && !(
            included(es[n]@) && key_of(es[n]@.abs_path) == key_of(es[i]@.abs_path)))),
        wins(es.take(n + 1), n) <==> included(es[n]@),
{
    let pre = es.take(n);
    let ext = es.take(n + 1);
    assert(forall|j: int| 0 <= j <= n ==> ext[j] == es[j]);
    assert(forall|j: int| 0 <= j < n ==> pre[j] == es[j]);
    assert forall|i: int| 0 <= i < n implies ((#[trigger] wins(ext, i)) <==> (wins(pre, i) && !(
    included(es[n]@) && key_of(es[n]@.abs_path) == key_of(es[i]@.abs_path)))) by {
        if wins(ext, i) {
            assert(forall|j: int|
                i < j < n ==> !(included(#[trigger] pre[j]@) && key_of(pre[j]@.abs_path) == key_of(
                    pre[i]@.abs_path,
                )));
        }
        if wins(pre, i) && !(included(es[n]@) && key_of(es[n]@.abs_path) == key_of(
            es[i]@.abs_path,
        )) {
            assert forall|j: int|
                i < j < n + 1 implies !(included(#[trigger] ext[j]@) && key_of(ext[j]@.abs_path)
                == key_of(ext[i]@.abs_path)) by {
                if j < n {
                    assert(!(included(pre[j]@) && key_of(pre[j]@.abs_path) == key_of(
                        pre[i]@.abs_path,
                    )));
                }
            }
        }
    }
}

/// Every included discovery has a winning discovery with the same key: the
/// last included occurrence of that folded path. Together with the key
/// uniqueness of `build_catalog`, exactly one catalog entry stands for all
/// discoveries that fold to one path.
pub proof fn lemma_included_has_winner(es: Seq<RawEntry>, i: int)
    requires
        0 <= i < es.len(),
        included(es[i]@),
    ensures
        exists|w: int|
            #[trigger] wins(es, w) && key_of(es[w]@.abs_path) == key_of(es[i]@.abs_path),
    decreases es.len() - i,
{
    if wins(es, i) {
    } else {
        let j = choose|j: int|
            i < j < es.len() && included(#[trigger] es[j]@) && key_of(es[j]@.abs_path) == key_of(
                es[i]@.abs_path,
            );
        lemma_included_has_winner(es, j);
        let w = choose|w: int|
            #[trigger] wins(es, w) && key_of(es[w]@.abs_path) == key_of(es[j]@.abs_path);
        assert(wins(es, w) && key_of(es[w]@.abs_path) == key_of(es[i]@.abs_path));
    }
}

/// Builds the deduplicated catalog from the discoveries of a scan, in
/// discovery order. A discovery enters the catalog exactly when its
/// extension is allow-listed and its root's recursion policy admits it;
/// among discoveries whose absolute paths fold to the same key, the last
/// one's data survives, and the catalog holds one entry per key.
pub fn build_catalog(entries: &Vec<RawEntry>) -> (r: Vec<Program>)
    ensures
        forall|k: int| 0 <= k < r@.len() ==> #[trigger] from_winner(entries@, r@, k),
        forall|i: int| #[trigger] wins(entries@, i) ==> winner_present(entries@, r@, i),
        forall|k1: int, k2: int|
            0 <= k1 < k2 < r@.len() ==> key_of(#[trigger] r@[k1]@.abs_path) != key_of(
                #[trigger] r@[k2]@.abs_path,
            ),
{
    let ghost es = entries@;
    let mut r: Vec<Program> = Vec::new();
    let mut n: usize = 0;
    while n < entries.len()
        invariant
            es == entries@,
            n <= es.len(),
            forall|k: int| 0 <= k < r@.len() ==> #[trigger] from_winner(es.take(n as int), r@, k),
            forall|i: int|
                #[trigger] wins(es.take(n as int), i) ==> winner_present(es.take(n as int), r@, i),
            forall|k1: int, k2: int|
                0 <= k1 < k2 < r@.len() ==> key_of(#[trigger] r@[k1]@.abs_path) != key_of(
                    #[trigger] r@[k2]@.abs_path,
                ),
        decreases es.len() - n,
    {
        let e = &entries[n];
        let allowed = path_ext_allowed(e.abs_path.as_str());
        let inc = allowed && (e.root_recursive || !e.nested);
        proof {
            assert(inc == included(es[n as int]@));
            lemma_wins_extend(es, n as int);
        }
        if inc {
            let prog = Program {
                title: e.title.clone(),
                source: e.source,
                abs_path: e.abs_path.clone(),
            };
            proof {
                assert(prog@ == program_of(es[n as int]@));
            }
            let found = find_key(&r, &e.abs_path);
            match found {
                Some(k0) => {
                    let ghost old_r = r@;
                    r[k0] = prog;
                    proof {
                        assert(r@ == old_r.update(k0 as int, prog));
                        // The new data folds to the same key the slot already
                        // had, so key uniqueness is kept.
                        assert(key_of(r@[k0 as int]@.abs_path) == key_of(
                            old_r[k0 as int]@.abs_path,
                        ));
                        // The overwritten slot now stands for discovery n.
                        assert(wins(es.take(n + 1), n as int));
                        // Every other slot keeps its winner: its key differs
                        // from the key of discovery n, which matched slot k0.
                        assert forall|k: int| 0 <= k < r@.len() implies #[trigger] from_winner(
                            es.take(n + 1),
                            r@,
                            k,
                        ) by {
                            if k == k0 {
                                assert(wins(es.take(n + 1), n as int) && r@[k]@ == program_of(
                                    es[n as int]@,
                                ));
                            } else {
                                assert(from_winner(es.take(n as int), old_r, k));
                                let i = choose|i: int|
                                    #[trigger] wins(es.take(n as int), i) && old_r[k]@
                                        == program_of(es[i]@);
                                assert(key_of(old_r[k]@.abs_path) != key_of(
                                    old_r[k0 as int]@.abs_path,
                                ));
                                assert(key_of(es[i]@.abs_path) != key_of(es[n as int]@.abs_path));
                                assert(wins(es.take(n + 1), i) && r@[k]@ == program_of(es[i]@));
                            }
                        }
                        assert forall|i: int| #[trigger] wins(es.take(n + 1), i) implies
                        winner_present(es.take(n + 1), r@, i) by {
                            if i == n as int {
                                assert(r@[k0 as int]@ == program_of(es[n as int]@));
                            } else {
                                assert(wins(es.take(n as int), i));
                                assert(winner_present(es.take(n as int), old_r, i));
                                let k = choose|k: int|
                                    0 <= k < old_r.len() && #[trigger] old_r[k]@ == program_of(
                                        es[i]@,
                                    );
                                if k == k0 {
                                    assert(key_of(es[i]@.abs_path) == key_of(
                                        old_r[k0 as int]@.abs_path,
                                    ));
                                    assert(key_of(es[i]@.abs_path) == key_of(
                                        es[n as int]@.abs_path,
                                    ));
                                    assert(!wins(es.take(n + 1), i));
                                } else {
                                    assert(r@[k]@ == program_of(es[i]@));
                                }
                            }
                        }
                    }
                },
                None => {
                    let ghost old_r = r@;
                    r.push(prog);
                    proof {
                        assert(r@ == old_r.push(prog));
                        assert(forall|k: int| 0 <= k < old_r.len() ==> r@[k] == old_r[k]);
                        assert(r@[old_r.len() as int] == prog);
                        assert(wins(es.take(n + 1), n as int));
                        assert forall|k: int| 0 <= k < r@.len() implies #[trigger] from_winner(
                            es.take(n + 1),
                            r@,
                            k,
                        ) by {
                            if k == old_r.len() {
                                assert(wins(es.take(n + 1), n as int) && r@[k]@ == program_of(
                                    es[n as int]@,
                                ));
                            } else {
                                assert(from_winner(es.take(n as int), old_r, k));
                                let i = choose|i: int|
                                    #[trigger] wins(es.take(n as int), i) && old_r[k]@
                                        == program_of(es[i]@);
                                assert(key_of(old_r[k]@.abs_path) != key_of(es[n as int]@.abs_path));
                                assert(wins(es.take(n + 1), i) && r@[k]@ == program_of(es[i]@));
                            }
                        }
                        assert forall|i: int| #[trigger] wins(es.take(n + 1), i) implies
                        winner_present(es.take(n + 1), r@, i) by {
                            if i == n as int {
                                assert(r@[old_r.len() as int]@ == program_of(es[n as int]@));
                            } else {
                                assert(wins(es.take(n as int), i));
                                assert(winner_present(es.take(n as int), old_r, i));
                                let k = choose|k: int|
                                    0 <= k < old_r.len() && #[trigger] old_r[k]@ == program_of(
                                        es[i]@,
                                    );
                                assert(r@[k]@ == program_of(es[i]@));
                            }
                        }
                        assert forall|k1: int, k2: int| 0 <= k1 < k2 < r@.len() implies key_of(
                            #[trigger] r@[k1]@.abs_path,
                        ) != key_of(#[trigger] r@[k2]@.abs_path) by {
                            if k2 == old_r.len() {
                                assert(key_of(r@[k1]@.abs_path) != key_of(es[n as int]@.abs_path));
                            }
                        }
                    }
                },
            }
        } else {
            proof {
                assert forall|k: int| 0 <= k < r@.len() implies #[trigger] from_winner(
                    es.take(n + 1),
                    r@,
                    k,
                ) by {
                    assert(from_winner(es.take(n as int), r@, k));
                    let i = choose|i: int|
                        #[trigger] wins(es.take(n as int), i) && r@[k]@ == program_of(es[i]@);
                    assert(wins(es.take(n + 1), i) && r@[k]@ == program_of(es[i]@));
                }
                assert forall|i: int| #[trigger] wins(es.take(n + 1), i) implies winner_present(
                    es.take(n + 1),
                    r@,
                    i,
                ) by {
                    assert(i != n as int);
                    assert(wins(es.take(n as int), i));
                    assert(winner_present(es.take(n as int), r@, i));
                }
            }
        }
        n = n + 1;
    }
    proof {
        assert(es.take(es.len() as int) =~= es);
    }
    r
}

} // verus!
