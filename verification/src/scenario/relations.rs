//! The dependency grammar: version-constrained package names
//! (`name (relop version)`) and `|`-separated alternation lists, with
//! parsing and exact-inverse formatting.

use vstd::prelude::*;
use vstd::string::StrSliceExecFns;

use super::version::{
    find_char, find_first, lemma_find_first_found, lemma_find_first_none, version_parses,
    version_eq, version_model_of, version_wf, spec_parse_u64, EpochErrorKind, Version,
    VersionModel, VersionEpochError,
};

verus! {

// ---------------------------------------------------------------------------
// Character classes of the grammar
// ---------------------------------------------------------------------------

/// A whitespace character, by the Unicode `White_Space` property.
pub open spec fn is_wsp(c: char) -> bool {
    let u = c as u32;
    u == 0x09 || u == 0x0A || u == 0x0B || u == 0x0C || u == 0x0D || u == 0x20 || u == 0x85 || u
        == 0xA0 || u == 0x1680 || (0x2000 <= u && u <= 0x200A) || u == 0x2028 || u == 0x2029 || u
        == 0x202F || u == 0x205F || u == 0x3000
}

/// A space or a horizontal tab: the only padding the constraint clause
/// itself allows.
pub open spec fn is_space(c: char) -> bool {
    c as u32 == 0x20 || c as u32 == 0x09
}

/// A character a package name may hold: anything but whitespace and `(`.
pub open spec fn is_pkg_char(c: char) -> bool {
    !is_wsp(c) && c as u32 != '(' as u32
}

fn wsp_ex(c: char) -> (r: bool)
    ensures
        r == is_wsp(c),
{
    let u: u32 = c as u32;
    u == 0x09 || u == 0x0A || u == 0x0B || u == 0x0C || u == 0x0D || u == 0x20 || u == 0x85 || u
        == 0xA0 || u == 0x1680 || (0x2000 <= u && u <= 0x200A) || u == 0x2028 || u == 0x2029 || u
        == 0x202F || u == 0x205F || u == 0x3000
}

fn space_ex(c: char) -> (r: bool)
    ensures
        r == is_space(c),
{
    let u: u32 = c as u32;
    u == 0x20 || u == 0x09
}

fn pkg_char_ex(c: char) -> (r: bool)
    ensures
        r == is_pkg_char(c),
{
    !wsp_ex(c) && c as u32 != 40
}

// ---------------------------------------------------------------------------
// Runs of characters
// ---------------------------------------------------------------------------

/// Length of the run of characters satisfying `f` at the front of `s`.
pub open spec fn run_len(s: Seq<char>, f: spec_fn(char) -> bool) -> nat
    decreases s.len(),
{
    if s.len() > 0 && f(s[0]) {
        1 + run_len(s.drop_first(), f)
    } else {
        0
    }
}

/// The run length is pinned by its characterisation.
pub proof fn lemma_run_len_eq(s: Seq<char>, f: spec_fn(char) -> bool, n: int)
    requires
        0 <= n <= s.len(),
        forall|k: int| 0 <= k < n ==> f(#[trigger] s[k]),
        n == s.len() || !f(s[n]),
    ensures
        run_len(s, f) == n,
    decreases s.len(),
{
    if n > 0 {
        assert(forall|k: int| 0 <= k < n - 1 ==> s.drop_first()[k] == s[k + 1]);
        lemma_run_len_eq(s.drop_first(), f, n - 1);
    }
}

/// The length of the package name at the front of `s`.
pub open spec fn pkg_len(s: Seq<char>) -> nat {
    run_len(s, |c: char| is_pkg_char(c))
}

/// The length of the space/tab padding at the front of `s`.
pub open spec fn space_len(s: Seq<char>) -> nat {
    run_len(s, |c: char| is_space(c))
}

/// First position at or after `i` whose character is no package-name
/// character.
fn pkg_end(s: &str, n: usize, i: usize) -> (j: usize)
    requires
        n == s@.len(),
        i <= n,
    ensures
        i <= j <= n,
        forall|k: int| i <= k < j ==> is_pkg_char(#[trigger] s@[k]),
        j == n || !is_pkg_char(s@[j as int]),
        j - i == pkg_len(s@.skip(i as int)),
{
    let mut j = i;
    while j < n
        invariant_except_break
            n == s@.len(),
            i <= j <= n,
            forall|k: int| i <= k < j ==> is_pkg_char(#[trigger] s@[k]),
        ensures
            i <= j <= n,
            forall|k: int| i <= k < j ==> is_pkg_char(#[trigger] s@[k]),
            j == n || !is_pkg_char(s@[j as int]),
        decreases n - j,
    {
        let c = s.get_char(j);
        if !pkg_char_ex(c) {
            break ;
        }
        j = j + 1;
    }
    proof {
        let sub = s@.skip(i as int);
        assert(forall|k: int| 0 <= k < j - i ==> is_pkg_char(#[trigger] sub[k])) by {
            assert(forall|k: int| 0 <= k < j - i ==> sub[k] == s@[i + k]);
        }
        if j < n {
            assert(sub[j - i] == s@[j as int]);
        }
        lemma_run_len_eq(sub, |c: char| is_pkg_char(c), j - i);
    }
    j
}

/// First position at or after `i` whose character is no space or tab.
fn space_end(s: &str, n: usize, i: usize) -> (j: usize)
    requires
        n == s@.len(),
        i <= n,
    ensures
        i <= j <= n,
        forall|k: int| i <= k < j ==> is_space(#[trigger] s@[k]),
        j == n || !is_space(s@[j as int]),
        j - i == space_len(s@.skip(i as int)),
{
    let mut j = i;
    while j < n
        invariant_except_break
            n == s@.len(),
            i <= j <= n,
            forall|k: int| i <= k < j ==> is_space(#[trigger] s@[k]),
        ensures
            i <= j <= n,
            forall|k: int| i <= k < j ==> is_space(#[trigger] s@[k]),
            j == n || !is_space(s@[j as int]),
        decreases n - j,
    {
        let c = s.get_char(j);
        if !space_ex(c) {
            break ;
        }
        j = j + 1;
    }
    proof {
        let sub = s@.skip(i as int);
        assert(forall|k: int| 0 <= k < j - i ==> is_space(#[trigger] sub[k])) by {
            assert(forall|k: int| 0 <= k < j - i ==> sub[k] == s@[i + k]);
        }
        if j < n {
            assert(sub[j - i] == s@[j as int]);
        }
        lemma_run_len_eq(sub, |c: char| is_space(c), j - i);
    }
    j
}

/// First occurrence of the code point of `c` at or after `i`.
fn find_char_from(s: &str, n: usize, i: usize, c: char) -> (r: Option<usize>)
    requires
        n == s@.len(),
        i <= n,
    ensures
        match r {
            Some(j) => i <= j < n && find_first(s@.skip(i as int), c) == j - i,
            None => find_first(s@.skip(i as int), c) == -1,
        },
{
    let mut j = i;
    while j < n
        invariant
            n == s@.len(),
            i <= j <= n,
            forall|k: int| i <= k < j ==> #[trigger] (s@[k] as u32) != c as u32,
        decreases n - j,
    {
        let cj = s.get_char(j);
        if cj as u32 == c as u32 {
            proof {
                let sub = s@.skip(i as int);
                assert(sub[j - i] == s@[j as int]);
                assert(forall|k: int| 0 <= k < j - i ==> #[trigger] (sub[k] as u32) != c as u32)
                    by {
                    assert(forall|k: int| 0 <= k < j - i ==> sub[k] == s@[i + k]);
                }
                lemma_find_first_found(sub, c, j - i);
            }
            return Some(j);
        }
        j = j + 1;
    }
    proof {
        let sub = s@.skip(i as int);
        assert(forall|k: int| 0 <= k < sub.len() ==> #[trigger] (sub[k] as u32) != c as u32) by {
            assert(forall|k: int| 0 <= k < sub.len() ==> sub[k] == s@[i + k]);
        }
        lemma_find_first_none(sub, c);
    }
    None
}

// ---------------------------------------------------------------------------
// Relations
// ---------------------------------------------------------------------------

/// The comparator of a version constraint, one of the five two-character
/// tokens `<<`, `<=`, `=`, `>=`, `>>` (with `=` a single character).
#[derive(Copy, Clone, Debug, PartialEq, Eq, Structural)]
pub enum Relation {
    /// Strictly earlier: `<<`.
    Earlier,
    /// Earlier or equal: `<=`.
    EarlierEqual,
    /// Exactly equal: `=`.
    Equal,
    /// Later or equal: `>=`.
    LaterEqual,
    /// Strictly later: `>>`.
    Later,
}

/// The token of each relation.
pub open spec fn rel_chars(r: Relation) -> Seq<char> {
    match r {
        Relation::Earlier => seq!['<', '<'],
        Relation::EarlierEqual => seq!['<', '='],
        Relation::Equal => seq!['='],
        Relation::LaterEqual => seq!['>', '='],
        Relation::Later => seq!['>', '>'],
    }
}

/// Which relation token starts `t`, and how many characters it takes:
/// the longer `<`- and `>`-tokens are recognised before the bare `=`.
pub open spec fn rel_parse(t: Seq<char>) -> Option<(Relation, nat)> {
    if t.len() >= 2 && t[0] as u32 == '<' as u32 && t[1] as u32 == '<' as u32 {
        Some((Relation::Earlier, 2nat))
    } else if t.len() >= 2 && t[0] as u32 == '<' as u32 && t[1] as u32 == '=' as u32 {
        Some((Relation::EarlierEqual, 2nat))
    } else if t.len() >= 1 && t[0] as u32 == '=' as u32 {
        Some((Relation::Equal, 1nat))
    } else if t.len() >= 2 && t[0] as u32 == '>' as u32 && t[1] as u32 == '=' as u32 {
        Some((Relation::LaterEqual, 2nat))
    } else if t.len() >= 2 && t[0] as u32 == '>' as u32 && t[1] as u32 == '>' as u32 {
        Some((Relation::Later, 2nat))
    } else {
        None
    }
}

impl Relation {
    /// The relation token at the front of the input, with the number of
    /// characters it spans.
    pub fn parse(s: &str) -> (r: Option<(Relation, usize)>)
        ensures
            match r {
                Some((rel, k)) => rel_parse(s@) == Some((rel, k as nat)),
                None => rel_parse(s@) is None,
            },
    {
        let n = s.unicode_len();
        proof {
            assert(s@.skip(0) =~= s@);
        }
        rel_parse_at(s, n, 0)
    }

    /// The token of this relation.
    pub fn as_str(&self) -> (r: &'static str)
        ensures
            r@ == rel_chars(*self),
    {
        proof {
            reveal_strlit("<<");
            reveal_strlit("<=");
            reveal_strlit("=");
            reveal_strlit(">=");
            reveal_strlit(">>");
        }
        match self {
            Relation::Earlier => "<<",
            Relation::EarlierEqual => "<=",
            Relation::Equal => "=",
            Relation::LaterEqual => ">=",
            Relation::Later => ">>",
        }
    }
}

// ---------------------------------------------------------------------------
// Version sets
// ---------------------------------------------------------------------------

/// The mathematical content of a version set: the package name and the
/// optional constraint.
#[verifier::ext_equal]
pub ghost struct VersionSetModel {
    pub package: Seq<char>,
    pub constraint: Option<(Relation, VersionModel)>,
}

/// Why a version set failed to parse.
pub ghost enum VsErr {
    EmptyPackageName,
    BadConstraintSpec,
    BadVersion(EpochErrorKind, Seq<char>),
}

/// The constraint clause: `(`, a relation token, space/tab padding, a
/// non-empty version text up to the first `)`, the `)`, then only
/// space/tab padding to the end. Yields the relation and the version
/// text.
pub open spec fn spec_constraint(rem: Seq<char>) -> Option<(Relation, Seq<char>)> {
    if rem.len() == 0 || rem[0] as u32 != '(' as u32 {
        None
    } else {
        let t = rem.drop_first();
        match rel_parse(t) {
            None => None,
            Some((rel, k)) => {
                let u = t.skip(k as int);
                let sp = space_len(u);
                let v = u.skip(sp as int);
                let ci = find_first(v, ')');
                if ci <= 0 {
                    None
                } else {
                    let after = v.skip(ci + 1);
                    if space_len(after) == after.len() {
                        Some((rel, v.take(ci)))
                    } else {
                        None
                    }
                }
            },
        }
    }
}

/// What parsing a version set returns: the package name is the non-empty
/// run of package characters at the front; after space/tab padding either
/// the input ends (no constraint) or a full constraint clause follows.
pub open spec fn spec_vs_parse(s: Seq<char>) -> Result<VersionSetModel, VsErr> {
    let pl = pkg_len(s);
    if pl == 0 {
        Err(VsErr::EmptyPackageName)
    } else {
        let sp = space_len(s.skip(pl as int));
        let rem = s.skip(pl + sp as int);
        if rem.len() == 0 {
            Ok(VersionSetModel { package: s.take(pl as int), constraint: None })
        } else {
            match spec_constraint(rem) {
                None => Err(VsErr::BadConstraintSpec),
                Some((rel, vtext)) => {
                    if version_parses(vtext) {
                        Ok(
                            VersionSetModel {
                                package: s.take(pl as int),
                                constraint: Some((rel, version_model_of(vtext))),
                            },
                        )
                    } else {
                        // a version fails to parse only through its epoch,
                        // so the second arm cannot be reached
                        match spec_parse_u64(vtext.take(find_first(vtext, ':'))) {
                            Err(k) => Err(VsErr::BadVersion(k, vtext.take(find_first(vtext, ':')))),
                            Ok(_) => Err(VsErr::BadVersion(EpochErrorKind::Empty, Seq::empty())),
                        }
                    }
                },
            }
        }
    }
}

/// Where the constraint clause of `s` begins: behind the package name
/// and the padding after it.
pub open spec fn constraint_start(s: Seq<char>) -> int {
    pkg_len(s) + space_len(s.skip(pkg_len(s) as int)) as int
}

/// A set of versions of one package: all of them, or those standing in a
/// relation to a fixed version.
#[derive(Debug)]
pub struct VersionSet {
    /// The name of the package.
    pub package: String,
    /// The constraint the versions of the set fulfil; `None` names every
    /// version of the package.
    pub constraint: Option<(Relation, Version)>,
}

impl View for VersionSet {
    type V = VersionSetModel;

    open spec fn view(&self) -> VersionSetModel {
        VersionSetModel {
            package: self.package@,
            constraint: match self.constraint {
                None => None,
                Some((r, v)) => Some((r, v@)),
            },
        }
    }
}

/// Two version sets are equal when their package names and constraints
/// agree, the versions by their components.
pub open spec fn vs_eq(a: VersionSetModel, b: VersionSetModel) -> bool {
    a.package == b.package && match (a.constraint, b.constraint) {
        (None, None) => true,
        (Some((r1, v1)), Some((r2, v2))) => r1 == r2 && version_eq(v1, v2),
        _ => false,
    }
}

impl PartialEq for VersionSet {
    fn eq(&self, other: &Self) -> (r: bool) {
        if !(self.package == other.package) {
            return false;
        }
        match (&self.constraint, &other.constraint) {
            (None, None) => true,
            (Some((r1, v1)), Some((r2, v2))) => *r1 == *r2 && v1.eq(v2),
            _ => false,
        }
    }
}

impl vstd::std_specs::cmp::PartialEqSpecImpl for VersionSet {
    open spec fn obeys_eq_spec() -> bool {
        true
    }

    open spec fn eq_spec(&self, other: &Self) -> bool {
        vs_eq(self@, other@)
    }
}

impl Eq for VersionSet {

}

/// A well-formed version set holds a well-formed version, if any.
pub open spec fn vs_wf(m: VersionSetModel) -> bool {
    match m.constraint {
        None => true,
        Some((_, vm)) => version_wf(vm),
    }
}

/// The error returned when a version set fails to parse. The `String`
/// payloads hold the input from the point where parsing diverged.
#[derive(Debug)]
pub enum VersionSetParseError {
    /// No package name at the front of the input.
    EmptyPackageName(String),
    /// The constraint clause is malformed: no relation token, an
    /// unmatched or empty parenthesis, or trailing text.
    BadConstraintSpec(String),
    /// The version inside the constraint has a malformed epoch.
    BadVersion(VersionEpochError),
}

/// How an error value relates to the parse of the input it came from.
pub open spec fn vs_err_ok(e: VersionSetParseError, s: Seq<char>) -> bool {
    match e {
        VersionSetParseError::EmptyPackageName(t) => spec_vs_parse(s) == Err::<
            VersionSetModel,
            VsErr,
        >(VsErr::EmptyPackageName) && t@ == s,
        VersionSetParseError::BadConstraintSpec(t) => spec_vs_parse(s) == Err::<
            VersionSetModel,
            VsErr,
        >(VsErr::BadConstraintSpec) && t@ == s.skip(constraint_start(s)),
        VersionSetParseError::BadVersion(ve) => spec_vs_parse(s) == Err::<VersionSetModel, VsErr>(
            VsErr::BadVersion(ve.kind, ve.text@),
        ),
    }
}

impl VersionSet {
    /// Parses a version set: a non-empty package name (no whitespace, no
    /// `(`), optionally followed by a parenthesised constraint.
    #[verifier::rlimit(100)]
    pub fn from_str(s: &str) -> (r: Result<VersionSet, VersionSetParseError>)
        ensures
            r is Ok <==> spec_vs_parse(s@) is Ok,
            match r {
                Ok(vs) => spec_vs_parse(s@) == Ok::<VersionSetModel, VsErr>(vs@) && vs_wf(vs@),
                Err(e) => vs_err_ok(e, s@),
            },
    {
        let n = s.unicode_len();
        proof {
            assert(s@.skip(0) =~= s@);
        }
        let pl = pkg_end(s, n, 0);
        if pl == 0 {
            return Err(VersionSetParseError::EmptyPackageName(s.to_owned()));
        }
        let cstart = space_end(s, n, pl);
        let ghost rem = s@.skip(cstart as int);
        proof {
            assert(pkg_len(s@) == pl);
            assert(space_len(s@.skip(pl as int)) == cstart - pl);
            assert(constraint_start(s@) == cstart);
        }
        let package = s.substring_char(0, pl).to_owned();
        proof {
            assert(package@ =~= s@.take(pl as int));
        }
        if cstart == n {
            proof {
                assert(rem.len() == 0);
            }
            return Ok(VersionSet { package, constraint: None });
        }
        // the constraint clause
        let c0 = s.get_char(cstart);
        proof {
            assert(rem[0] == s@[cstart as int]);
        }
        if c0 as u32 != 40 {
            return Err(VersionSetParseError::BadConstraintSpec(s.substring_char(cstart, n).to_owned()));
        }
        let ghost t = rem.drop_first();
        proof {
            assert(t =~= s@.skip(cstart + 1));
        }
        let rel_opt = rel_parse_at(s, n, cstart + 1);
        match rel_opt {
            None => {
                return Err(VersionSetParseError::BadConstraintSpec(s.substring_char(cstart, n).to_owned()));
            },
            Some((rel, rlen)) => {
                let vstart0 = cstart + 1 + rlen;
                proof {
                    // a recognised relation token never runs past the end
                    assert(rlen as nat <= t.len());
                    assert(t.skip(rlen as int) =~= s@.skip(vstart0 as int));
                }
                let vstart = space_end(s, n, vstart0);
                let ghost v = s@.skip(vstart as int);
                proof {
                    assert(space_len(s@.skip(vstart0 as int)) == vstart - vstart0);
                    assert(s@.skip(vstart0 as int).skip((vstart - vstart0) as int) =~= v);
                }
                match find_char_from(s, n, vstart, ')') {
                    None => {
                        return Err(VersionSetParseError::BadConstraintSpec(s.substring_char(cstart, n).to_owned()));
                    },
                    Some(rp) => {
                        if rp == vstart {
                            return Err(VersionSetParseError::BadConstraintSpec(s.substring_char(cstart, n).to_owned()));
                        }
                        let after_sp = space_end(s, n, rp + 1);
                        let ghost after = v.skip(rp - vstart + 1);
                        proof {
                            assert(after =~= s@.skip(rp + 1));
                            assert(space_len(after) == after_sp - rp - 1);
                        }
                        if after_sp != n {
                            return Err(VersionSetParseError::BadConstraintSpec(s.substring_char(cstart, n).to_owned()));
                        }
                        let vtext = s.substring_char(vstart, rp);
                        proof {
                            assert(vtext@ =~= v.take(rp - vstart));
                            assert(spec_constraint(rem) == Some((rel, vtext@)));
                        }
                        match Version::parse(vtext) {
                            Err(e) => {
                                proof {
                                    assert(e.text@ == vtext@.take(find_first(vtext@, ':')));
                                }
                                return Err(VersionSetParseError::BadVersion(e));
                            },
                            Ok(ver) => {
                                return Ok(VersionSet { package, constraint: Some((rel, ver)) });
                            },
                        }
                    },
                }
            },
        }
    }
}

/// The textual form of a version set: the package name alone, or with
/// ` (relop version)` appended.
pub open spec fn spec_vs_format(m: VersionSetModel) -> Seq<char> {
    match m.constraint {
        None => m.package,
        Some((r, v)) => m.package + seq![' ', '('] + rel_chars(r) + seq![' '] + v.original + seq![
            ')',
        ],
    }
}

impl VersionSet {
    /// The textual form: the exact inverse of `from_str` on its output.
    pub fn to_string(&self) -> (r: String)
        ensures
            r@ == spec_vs_format(self@),
    {
        match &self.constraint {
            None => self.package.clone(),
            Some((rel, ver)) => {
                let mut out = self.package.clone();
                out.append(" (");
                out.append(rel.as_str());
                out.append(" ");
                out.append(ver.as_str());
                out.append(")");
                proof {
                    reveal_strlit(" (");
                    reveal_strlit(" ");
                    reveal_strlit(")");
                    assert(" ("@ =~= seq![' ', '(']);
                    assert(" "@ =~= seq![' ']);
                    assert(")"@ =~= seq![')']);
                    assert(out@ =~= spec_vs_format(self@));
                }
                out
            },
        }
    }
}

// ---------------------------------------------------------------------------
// Round trip of version sets
// ---------------------------------------------------------------------------

/// The values whose textual form parses back: the package name is
/// non-empty and free of whitespace and `(`; a constrained version is
/// well formed, non-empty, holds no `)`, and does not begin with the
/// padding the grammar would swallow.
pub open spec fn vs_format_wf(m: VersionSetModel) -> bool {
    &&& m.package.len() > 0
    &&& (forall|i: int| 0 <= i < m.package.len() ==> is_pkg_char(#[trigger] m.package[i]))
    &&& match m.constraint {
        None => true,
        Some((r, v)) => {
            &&& version_wf(v)
            &&& v.original.len() > 0
            &&& (forall|i: int|
                0 <= i < v.original.len() ==> #[trigger] (v.original[i] as u32) != ')' as u32)
            &&& !is_space(v.original[0])
        },
    }
}

/// Round trip: parsing the textual form of a well-formed version set
/// yields the version set back.
#[verifier::rlimit(100)]
pub proof fn lemma_vs_round_trip(m: VersionSetModel)
    requires
        vs_format_wf(m),
    ensures
        spec_vs_parse(spec_vs_format(m)) == Ok::<VersionSetModel, VsErr>(m),
{
    let s = spec_vs_format(m);
    let pl = m.package.len() as int;
    match m.constraint {
        None => {
            assert(s == m.package);
            lemma_run_len_eq(s, |c: char| is_pkg_char(c), pl);
            assert(pkg_len(s) == pl);
            assert(s.skip(pl).len() == 0);
            lemma_run_len_eq(s.skip(pl), |c: char| is_space(c), 0);
            assert(s.skip(pl + 0).len() == 0);
            assert(s.take(pl) =~= m.package);
            assert(spec_vs_parse(s) == Ok::<VersionSetModel, VsErr>(
                VersionSetModel { package: s.take(pl), constraint: None },
            ));
            assert(VersionSetModel { package: s.take(pl), constraint: None } =~= m);
        },
        Some((r, v)) => {
            let tail = seq![' ', '('] + rel_chars(r) + seq![' '] + v.original + seq![')'];
            assert(s =~= m.package + tail);
            let rl = rel_chars(r).len() as int;
            let ol = v.original.len() as int;
            assert(tail.len() == 2 + rl + 1 + ol + 1);
            // region facts
            assert(forall|k: int| 0 <= k < pl ==> s[k] == m.package[k]);
            assert(forall|k: int| 0 <= k < tail.len() ==> s[pl + k] == tail[k]);
            assert(tail[0] == ' ' && tail[1] == '(');
            assert(forall|k: int| 0 <= k < rl ==> tail[2 + k] == rel_chars(r)[k]);
            assert(tail[2 + rl] == ' ');
            assert(forall|k: int| 0 <= k < ol ==> tail[3 + rl + k] == v.original[k]);
            assert(tail[3 + rl + ol] == ')');
            // package run: stops at the space
            assert(!is_pkg_char(s[pl]));
            lemma_run_len_eq(s, |c: char| is_pkg_char(c), pl);
            assert(pkg_len(s) == pl);
            assert(s.take(pl) =~= m.package);
            // one space, then the parenthesis
            assert(s.skip(pl)[0] == ' ' && s.skip(pl)[1] == '(');
            lemma_run_len_eq(s.skip(pl), |c: char| is_space(c), 1);
            let rem = s.skip(pl + 1);
            assert(rem =~= tail.drop_first());
            assert(rem[0] == '(');
            let t = rem.drop_first();
            assert(t =~= rel_chars(r) + seq![' '] + v.original + seq![')']);
            // the relation token reads back as itself
            assert(forall|k: int| 0 <= k < rl ==> t[k] == rel_chars(r)[k]);
            assert(t[rl] == ' ');
            assert(t.len() == rl + 1 + ol + 1);
            assert(rel_parse(t) == Some((r, rl as nat))) by {
                match r {
                    Relation::Earlier => assert(t[0] == '<' && t[1] == '<'),
                    Relation::EarlierEqual => assert(t[0] == '<' && t[1] == '='),
                    Relation::Equal => assert(t[0] == '='),
                    Relation::LaterEqual => assert(t[0] == '>' && t[1] == '='),
                    Relation::Later => assert(t[0] == '>' && t[1] == '>'),
                }
            }
            // one space of padding before the version text
            let u = t.skip(rl);
            assert(u =~= seq![' '] + v.original + seq![')']);
            assert(u[0] == ' ');
            assert(u[1] == v.original[0]);
            lemma_run_len_eq(u, |c: char| is_space(c), 1);
            let vv = u.skip(1);
            assert(vv =~= v.original + seq![')']);
            // the version text runs to the closing parenthesis
            assert(forall|k: int| 0 <= k < ol ==> vv[k] == v.original[k]);
            assert(vv[ol] == ')');
            lemma_find_first_found(vv, ')', ol);
            assert(find_first(vv, ')') == ol);
            let after = vv.skip(ol + 1);
            assert(after.len() == 0);
            lemma_run_len_eq(after, |c: char| is_space(c), 0);
            assert(spec_constraint(rem) == Some((r, vv.take(ol))));
            assert(vv.take(ol) =~= v.original);
            // the version parses back to its own model
            assert(version_parses(v.original));
            assert(version_model_of(v.original) =~= v);
            assert(spec_vs_parse(s) == Ok::<VersionSetModel, VsErr>(
                VersionSetModel { package: s.take(pl), constraint: Some((r, version_model_of(v.original))) },
            ));
            assert(VersionSetModel {
                package: s.take(pl),
                constraint: Some((r, version_model_of(v.original))),
            } =~= m);
        },
    }
}

// ---------------------------------------------------------------------------
// Trimming and splitting
// ---------------------------------------------------------------------------

/// Length of the whitespace run at the end of `s`.
pub open spec fn ws_suffix_len(s: Seq<char>) -> nat
    decreases s.len(),
{
    if s.len() > 0 && is_wsp(s[s.len() - 1]) {
        1 + ws_suffix_len(s.drop_last())
    } else {
        0
    }
}

/// The whitespace-suffix length is pinned by its characterisation.
pub proof fn lemma_ws_suffix_eq(s: Seq<char>, m: int)
    requires
        0 <= m <= s.len(),
        forall|k: int| s.len() - m <= k < s.len() ==> is_wsp(#[trigger] s[k]),
        m == s.len() || !is_wsp(s[s.len() - m - 1]),
    ensures
        ws_suffix_len(s) == m,
    decreases s.len(),
{
    if m > 0 {
        assert(forall|k: int| 0 <= k < s.len() - 1 ==> s.drop_last()[k] == s[k]);
        lemma_ws_suffix_eq(s.drop_last(), m - 1);
    }
}

/// `s` without its leading and trailing whitespace.
pub open spec fn spec_trim(s: Seq<char>) -> Seq<char> {
    let l = run_len(s, |c: char| is_wsp(c));
    let r = s.skip(l as int);
    r.take(r.len() - ws_suffix_len(r))
}

/// Strips leading and trailing whitespace.
fn trim_str<'a>(s: &'a str) -> (r: &'a str)
    ensures
        r@ == spec_trim(s@),
{
    let n = s.unicode_len();
    let mut i: usize = 0;
    while i < n
        invariant_except_break
            n == s@.len(),
            i <= n,
            forall|k: int| 0 <= k < i ==> is_wsp(#[trigger] s@[k]),
        ensures
            i <= n,
            forall|k: int| 0 <= k < i ==> is_wsp(#[trigger] s@[k]),
            i == n || !is_wsp(s@[i as int]),
        decreases n - i,
    {
        let c = s.get_char(i);
        if !wsp_ex(c) {
            break ;
        }
        i = i + 1;
    }
    let mut j: usize = n;
    while j > i
        invariant_except_break
            n == s@.len(),
            i <= j <= n,
            forall|k: int| j <= k < n ==> is_wsp(#[trigger] s@[k]),
        ensures
            i <= j <= n,
            forall|k: int| j <= k < n ==> is_wsp(#[trigger] s@[k]),
            j == i || !is_wsp(s@[j - 1]),
        decreases j,
    {
        let c = s.get_char(j - 1);
        if !wsp_ex(c) {
            break ;
        }
        j = j - 1;
    }
    proof {
        lemma_run_len_eq(s@, |c: char| is_wsp(c), i as int);
        let r0 = s@.skip(i as int);
        assert(forall|k: int| r0.len() - (n - j) <= k < r0.len() ==> is_wsp(#[trigger] r0[k])) by {
            assert(forall|k: int| 0 <= k < r0.len() ==> r0[k] == s@[i + k]);
        }
        if j > i {
            assert(r0[j - i - 1] == s@[j - 1]);
        }
        lemma_ws_suffix_eq(r0, n - j);
        assert(r0.take(r0.len() - (n - j) as nat) =~= s@.subrange(i as int, j as int));
    }
    s.substring_char(i, j)
}

pub proof fn lemma_find_first_bound(s: Seq<char>, c: char)
    ensures
        -1 <= find_first(s, c) < s.len() || (s.len() == 0 && find_first(s, c) == -1),
    decreases s.len(),
{
    if s.len() > 0 && !(s[0] as u32 == c as u32) {
        lemma_find_first_bound(s.drop_first(), c);
    }
}

/// `s` cut at every occurrence of the code point of `c`: one piece more
/// than there are separators, in order, separators dropped.
pub open spec fn split_on(s: Seq<char>, c: char) -> Seq<Seq<char>>
    decreases s.len(),
    via split_on_decreases
{
    let i = find_first(s, c);
    if i < 0 {
        seq![s]
    } else {
        seq![s.take(i)] + split_on(s.skip(i + 1), c)
    }
}

#[via_fn]
proof fn split_on_decreases(s: Seq<char>, c: char) {
    lemma_find_first_bound(s, c);
}

pub proof fn lemma_split_on_len(s: Seq<char>, c: char)
    ensures
        1 <= split_on(s, c).len() <= s.len() + 1,
    decreases s.len(),
{
    lemma_find_first_bound(s, c);
    let i = find_first(s, c);
    if i >= 0 {
        lemma_split_on_len(s.skip(i + 1), c);
    }
}

// ---------------------------------------------------------------------------
// Dependencies
// ---------------------------------------------------------------------------

/// The mathematical content of a dependency: the first version set and
/// the alternates, in order.
#[verifier::ext_equal]
pub ghost struct DependencyModel {
    pub first: VersionSetModel,
    pub alternates: Seq<VersionSetModel>,
}

/// The version set a piece parses to, meaningful when its parse succeeds.
pub open spec fn piece_model(p: Seq<char>) -> VersionSetModel {
    match spec_vs_parse(spec_trim(p)) {
        Ok(m) => m,
        Err(_) => arbitrary(),
    }
}

/// Parses a list of pieces as version sets, each trimmed first; a failure
/// carries the position of the first piece that fails.
pub open spec fn parse_alts(pieces: Seq<Seq<char>>) -> Result<Seq<VersionSetModel>, (int, VsErr)>
    decreases pieces.len(),
{
    if pieces.len() == 0 {
        Ok(Seq::empty())
    } else {
        match spec_vs_parse(spec_trim(pieces[0])) {
            Err(e) => Err((0int, e)),
            Ok(m) => match parse_alts(pieces.drop_first()) {
                Err((i, e)) => Err((i + 1, e)),
                Ok(ms) => Ok(seq![m] + ms),
            },
        }
    }
}

/// What parsing a dependency returns: the text before the first `|` is
/// the first version set; the text after it, when non-empty, splits at
/// every further `|` into the alternates. Every piece is trimmed before
/// parsing. A failure carries the position of the failing piece, the
/// first piece counting as zero.
pub open spec fn spec_dep_parse(s: Seq<char>) -> Result<DependencyModel, (int, VsErr)> {
    let cut = find_first(s, '|');
    let ftxt = if cut >= 0 {
        s.take(cut)
    } else {
        s
    };
    let rest = if cut >= 0 {
        s.skip(cut + 1)
    } else {
        Seq::<char>::empty()
    };
    match spec_vs_parse(spec_trim(ftxt)) {
        Err(e) => Err((0int, e)),
        Ok(f) => {
            if rest.len() == 0 {
                Ok(DependencyModel { first: f, alternates: Seq::empty() })
            } else {
                match parse_alts(split_on(rest, '|')) {
                    Err((i, e)) => Err((i + 1, e)),
                    Ok(ms) => Ok(DependencyModel { first: f, alternates: ms }),
                }
            }
        },
    }
}

/// The trimmed text of piece `i` of a dependency, the text that its own
/// parse, and so its error trace, refers to.
pub open spec fn dep_piece(s: Seq<char>, i: int) -> Seq<char> {
    let cut = find_first(s, '|');
    if i == 0 {
        spec_trim(
            if cut >= 0 {
                s.take(cut)
            } else {
                s
            },
        )
    } else {
        spec_trim(split_on(s.skip(cut + 1), '|')[i - 1])
    }
}

/// A dependency: one mandatory version set, and any number of alternates
/// of which any one satisfies it.
#[derive(Debug)]
pub struct Dependency {
    /// The first version set that can fulfil this dependency.
    pub first: VersionSet,
    /// The other version sets that can fulfil this dependency.
    pub alternates: Vec<VersionSet>,
}

/// The models of a sequence of version sets, in order.
pub open spec fn vs_models(v: Seq<VersionSet>) -> Seq<VersionSetModel> {
    Seq::new(v.len(), |i: int| v[i]@)
}

impl View for Dependency {
    type V = DependencyModel;

    open spec fn view(&self) -> DependencyModel {
        DependencyModel { first: self.first@, alternates: vs_models(self.alternates@) }
    }
}

/// Two dependencies are equal when their members agree pairwise.
pub open spec fn dep_eq(a: DependencyModel, b: DependencyModel) -> bool {
    &&& vs_eq(a.first, b.first)
    &&& a.alternates.len() == b.alternates.len()
    &&& forall|i: int|
        0 <= i < a.alternates.len() ==> vs_eq(#[trigger] a.alternates[i], b.alternates[i])
}

impl PartialEq for Dependency {
    fn eq(&self, other: &Self) -> (r: bool) {
        if !self.first.eq(&other.first) {
            return false;
        }
        if self.alternates.len() != other.alternates.len() {
            return false;
        }
        let mut i: usize = 0;
        while i < self.alternates.len()
            invariant
                i <= self.alternates@.len(),
                self.alternates@.len() == other.alternates@.len(),
                vs_eq(self.first@, other.first@),
                forall|m: int|
                    0 <= m < i ==> vs_eq(
                        #[trigger] self.alternates@[m]@,
                        other.alternates@[m]@,
                    ),
            decreases self.alternates@.len() - i,
        {
            proof {
                assert(self@.alternates[i as int] == self.alternates@[i as int]@);
                assert(other@.alternates[i as int] == other.alternates@[i as int]@);
            }
            if !self.alternates[i].eq(&other.alternates[i]) {
                return false;
            }
            i = i + 1;
        }
        true
    }
}

impl vstd::std_specs::cmp::PartialEqSpecImpl for Dependency {
    open spec fn obeys_eq_spec() -> bool {
        true
    }

    open spec fn eq_spec(&self, other: &Self) -> bool {
        dep_eq(self@, other@)
    }
}

impl Eq for Dependency {

}

/// A well-formed dependency holds well-formed version sets throughout.
pub open spec fn dep_wf(d: DependencyModel) -> bool {
    vs_wf(d.first) && forall|i: int| 0 <= i < d.alternates.len() ==> vs_wf(#[trigger] d.alternates[i])
}

/// The error returned when a dependency fails to parse.
#[derive(Debug)]
pub enum DependencyParseError {
    /// The version set at the given position failed to parse; the first
    /// one counts as zero.
    Alternate(usize, VersionSetParseError),
}

/// How a dependency error relates to the parse of the input it came from.
pub open spec fn dep_err_ok(e: DependencyParseError, s: Seq<char>) -> bool {
    match e {
        DependencyParseError::Alternate(i, ve) => match spec_dep_parse(s) {
            Err((j, _)) => i == j && vs_err_ok(ve, dep_piece(s, j)),
            Ok(_) => false,
        },
    }
}

proof fn lemma_parse_alts_prefix(pieces: Seq<Seq<char>>, k: int)
    requires
        0 <= k <= pieces.len(),
        forall|m: int| 0 <= m < k ==> spec_vs_parse(spec_trim(#[trigger] pieces[m])) is Ok,
    ensures
        match parse_alts(pieces.skip(k)) {
            Ok(ms) => parse_alts(pieces) == Ok::<Seq<VersionSetModel>, (int, VsErr)>(
                Seq::new(k as nat, |i: int| piece_model(pieces[i])) + ms,
            ),
            Err((i, e)) => parse_alts(pieces) == Err::<Seq<VersionSetModel>, (int, VsErr)>(
                (k + i, e),
            ),
        },
    decreases k,
{
    if k == 0 {
        assert(pieces.skip(0) =~= pieces);
        match parse_alts(pieces) {
            Ok(ms) => {
                assert(Seq::new(0nat, |i: int| piece_model(pieces[i])) + ms =~= ms);
            },
            Err(_) => {},
        }
    } else {
        let s1 = pieces.skip(k - 1);
        assert(s1.drop_first() =~= pieces.skip(k));
        assert(s1[0] == pieces[k - 1]);
        lemma_parse_alts_prefix(pieces, k - 1);
        match parse_alts(pieces.skip(k)) {
            Ok(ms) => {
                assert(parse_alts(s1) == Ok::<Seq<VersionSetModel>, (int, VsErr)>(
                    seq![piece_model(pieces[k - 1])] + ms,
                ));
                assert(Seq::new((k - 1) as nat, |i: int| piece_model(pieces[i])) + (seq![
                    piece_model(pieces[k - 1]),
                ] + ms) =~= Seq::new(k as nat, |i: int| piece_model(pieces[i])) + ms);
            },
            Err((i, e)) => {
                assert(parse_alts(s1) == Err::<Seq<VersionSetModel>, (int, VsErr)>((1 + i, e)));
            },
        }
    }
}

impl Dependency {
    /// Parses a dependency: `|`-separated version sets, each trimmed of
    /// surrounding whitespace, the first mandatory.
    #[verifier::rlimit(100)]
    pub fn from_str(s: &str) -> (r: Result<Dependency, DependencyParseError>)
        ensures
            r is Ok <==> spec_dep_parse(s@) is Ok,
            match r {
                Ok(d) => spec_dep_parse(s@) == Ok::<DependencyModel, (int, VsErr)>(d@) && dep_wf(
                    d@,
                ),
                Err(e) => dep_err_ok(e, s@),
            },
    {
        let n = s.unicode_len();
        let cut = find_char(s, n, '|');
        let fend: usize;
        let rest_start: usize;
        match cut {
            None => {
                fend = n;
                rest_start = n;
            },
            Some(i) => {
                fend = i;
                rest_start = i + 1;
            },
        }
        let ftxt = s.substring_char(0, fend);
        proof {
            if find_first(s@, '|') >= 0 {
                assert(ftxt@ =~= s@.take(find_first(s@, '|')));
            } else {
                assert(ftxt@ =~= s@);
            }
        }
        let ftrim = trim_str(ftxt);
        let first = match VersionSet::from_str(ftrim) {
            Err(e) => {
                return Err(DependencyParseError::Alternate(0, e));
            },
            Ok(f) => f,
        };
        if rest_start >= n {
            let d = Dependency { first, alternates: Vec::new() };
            proof {
                assert(vs_models(Seq::<VersionSet>::empty()) =~= Seq::<VersionSetModel>::empty());
                assert(spec_dep_parse(s@) == Ok::<DependencyModel, (int, VsErr)>(d@)) by {
                    if find_first(s@, '|') >= 0 {
                        assert(s@.skip(find_first(s@, '|') + 1).len() == 0);
                    }
                    assert(d@ =~= DependencyModel { first: first@, alternates: Seq::empty() });
                }
            }
            return Ok(d);
        }
        let ghost rest = s@.skip(rest_start as int);
        let ghost pieces = split_on(rest, '|');
        proof {
            lemma_split_on_len(rest, '|');
        }
        let mut alts: Vec<VersionSet> = Vec::new();
        let mut start = rest_start;
        loop
            invariant_except_break
                n == s@.len(),
                1 <= rest_start <= start <= n,
                rest_start < n,
                rest == s@.skip(rest_start as int),
                pieces == split_on(rest, '|'),
                pieces.len() <= rest.len() + 1,
                find_first(s@, '|') == rest_start - 1,
                spec_vs_parse(dep_piece(s@, 0)) == Ok::<VersionSetModel, VsErr>(first@),
                vs_wf(first@),
                alts@.len() <= pieces.len(),
                split_on(s@.skip(start as int), '|') == pieces.skip(alts@.len() as int),
                forall|m: int|
                    0 <= m < alts@.len() ==> spec_vs_parse(spec_trim(#[trigger] pieces[m]))
                        == Ok::<VersionSetModel, VsErr>(alts@[m]@) && vs_wf(alts@[m]@),
            ensures
                n == s@.len(),
                rest == s@.skip(rest_start as int),
                pieces == split_on(rest, '|'),
                alts@.len() == pieces.len(),
                spec_vs_parse(dep_piece(s@, 0)) == Ok::<VersionSetModel, VsErr>(first@),
                vs_wf(first@),
                find_first(s@, '|') == rest_start - 1,
                rest_start < n,
                forall|m: int|
                    0 <= m < alts@.len() ==> spec_vs_parse(spec_trim(#[trigger] pieces[m]))
                        == Ok::<VersionSetModel, VsErr>(alts@[m]@) && vs_wf(alts@[m]@),
            decreases n - start,
        {
            let ghost k = alts@.len() as int;
            let ghost cur = s@.skip(start as int);
            let nxt = find_char_from(s, n, start, '|');
            let end = match nxt {
                Some(j) => j,
                None => n,
            };
            let piece = s.substring_char(start, end);
            proof {
                assert(pieces.skip(k).len() > 0);
                assert(k < pieces.len());
                match nxt {
                    Some(j) => {
                        assert(piece@ =~= cur.take(j - start));
                        assert(split_on(cur, '|') == seq![cur.take(j - start)] + split_on(
                            cur.skip(j - start + 1),
                            '|',
                        ));
                        assert(pieces.skip(k)[0] == pieces[k]);
                        assert(pieces[k] == piece@);
                        assert(cur.skip(j - start + 1) =~= s@.skip(j + 1));
                    },
                    None => {
                        assert(piece@ =~= cur);
                        assert(split_on(cur, '|') == seq![cur]);
                        assert(pieces.skip(k)[0] == pieces[k]);
                        assert(pieces[k] == piece@);
                        assert(pieces.skip(k).len() == 1);
                        assert(alts@.len() + 1 == pieces.len());
                    },
                }
            }
            let ptrim = trim_str(piece);
            match VersionSet::from_str(ptrim) {
                Err(e) => {
                    proof {
                        assert(parse_alts(pieces.skip(k)) is Err);
                        lemma_parse_alts_prefix(pieces, k);
                        assert(spec_dep_parse(s@) is Err);
                        assert(dep_piece(s@, k + 1) == spec_trim(pieces[k]));
                    }
                    return Err(DependencyParseError::Alternate(alts.len() + 1, e));
                },
                Ok(vs) => {
                    alts.push(vs);
                    proof {
                        assert(alts@[k]@ == vs@);
                        assert(forall|m: int|
                            0 <= m < k ==> alts@[m] == alts@.drop_last()[m]);
                    }
                },
            }
            match nxt {
                None => {
                    break ;
                },
                Some(j) => {
                    proof {
                        assert(pieces.skip(k).drop_first() =~= pieces.skip(k + 1));
                    }
                    start = j + 1;
                },
            }
        }
        let d = Dependency { first, alternates: alts };
        proof {
            lemma_parse_alts_prefix(pieces, pieces.len() as int);
            assert(pieces.skip(pieces.len() as int) =~= Seq::<Seq<char>>::empty());
            let models = Seq::new(pieces.len(), |i: int| piece_model(pieces[i]));
            assert(parse_alts(pieces) == Ok::<Seq<VersionSetModel>, (int, VsErr)>(models + Seq::empty()));
            assert(models + Seq::<VersionSetModel>::empty() =~= models);
            assert(vs_models(alts@) =~= models);
            assert(rest.len() > 0);
            assert(d@ =~= DependencyModel { first: first@, alternates: models });
        }
        Ok(d)
    }
}

// ---------------------------------------------------------------------------
// Formatting and round trip of dependencies
// ---------------------------------------------------------------------------

/// The textual form of the alternates: ` | ` before each.
pub open spec fn alts_format(ms: Seq<VersionSetModel>) -> Seq<char>
    decreases ms.len(),
{
    if ms.len() == 0 {
        Seq::empty()
    } else {
        seq![' ', '|', ' '] + spec_vs_format(ms[0]) + alts_format(ms.drop_first())
    }
}

/// The textual form of a dependency: the first version set, then each
/// alternate behind ` | `.
pub open spec fn spec_dep_format(d: DependencyModel) -> Seq<char> {
    spec_vs_format(d.first) + alts_format(d.alternates)
}

proof fn lemma_alts_format_concat(a: Seq<VersionSetModel>, b: Seq<VersionSetModel>)
    ensures
        alts_format(a + b) == alts_format(a) + alts_format(b),
    decreases a.len(),
{
    if a.len() == 0 {
        assert(a + b =~= b);
        assert(Seq::<char>::empty() + alts_format(b) =~= alts_format(b));
    } else {
        assert((a + b)[0] == a[0]);
        assert((a + b).drop_first() =~= a.drop_first() + b);
        lemma_alts_format_concat(a.drop_first(), b);
        assert(seq![' ', '|', ' '] + spec_vs_format(a[0]) + (alts_format(a.drop_first())
            + alts_format(b)) =~= (seq![' ', '|', ' '] + spec_vs_format(a[0]) + alts_format(
            a.drop_first(),
        )) + alts_format(b));
    }
}

impl Dependency {
    /// The textual form: the exact inverse of `from_str` on its output.
    pub fn to_string(&self) -> (r: String)
        ensures
            r@ == spec_dep_format(self@),
    {
        let ghost ms = vs_models(self.alternates@);
        let mut out = self.first.to_string();
        proof {
            assert(ms.take(0) =~= Seq::<VersionSetModel>::empty());
        }
        let mut i: usize = 0;
        while i < self.alternates.len()
            invariant
                i <= self.alternates.len(),
                ms == vs_models(self.alternates@),
                out@ == spec_vs_format(self.first@) + alts_format(ms.take(i as int)),
            decreases self.alternates.len() - i,
        {
            out.append(" | ");
            let t = self.alternates[i].to_string();
            out.append(t.as_str());
            proof {
                reveal_strlit(" | ");
                assert(" | "@ =~= seq![' ', '|', ' ']);
                assert(ms.take(i + 1) =~= ms.take(i as int) + seq![ms[i as int]]);
                lemma_alts_format_concat(ms.take(i as int), seq![ms[i as int]]);
                assert(seq![ms[i as int]].drop_first() =~= Seq::<VersionSetModel>::empty());
                assert((seq![ms[i as int]])[0] == ms[i as int]);
                assert(alts_format(Seq::<VersionSetModel>::empty()) == Seq::<char>::empty());
                assert(alts_format(seq![ms[i as int]]) =~= seq![' ', '|', ' '] + spec_vs_format(
                    ms[i as int],
                ));
                assert(ms[i as int] == self.alternates@[i as int]@);
                assert(out@ =~= spec_vs_format(self.first@) + alts_format(ms.take(i + 1)));
            }
            i = i + 1;
        }
        proof {
            assert(ms.take(ms.len() as int) =~= ms);
        }
        out
    }
}

/// No character with the code point of `|`.
pub open spec fn no_bar(s: Seq<char>) -> bool {
    forall|k: int| 0 <= k < s.len() ==> #[trigger] (s[k] as u32) != '|' as u32
}

/// The values whose textual form parses back: every member is fit for
/// its own round trip, and none of their texts holds a `|`, which the
/// alternation splitting would cut at.
pub open spec fn dep_format_wf(d: DependencyModel) -> bool {
    &&& vs_format_wf(d.first)
    &&& no_bar(spec_vs_format(d.first))
    &&& forall|i: int|
        0 <= i < d.alternates.len() ==> vs_format_wf(#[trigger] d.alternates[i]) && no_bar(
            spec_vs_format(d.alternates[i]),
        )
}

/// Trimming takes exactly the whitespace at both ends.
proof fn lemma_trim_ends(s: Seq<char>, i: int, j: int)
    requires
        0 <= i <= j <= s.len(),
        forall|k: int| 0 <= k < i ==> is_wsp(#[trigger] s[k]),
        forall|k: int| j <= k < s.len() ==> is_wsp(#[trigger] s[k]),
        i == j || (!is_wsp(s[i]) && !is_wsp(s[j - 1])),
    ensures
        spec_trim(s) == s.subrange(i, j),
{
    if i == j {
        // everything is whitespace
        lemma_run_len_eq(s, |c: char| is_wsp(c), s.len() as int);
        let r = s.skip(s.len() as int);
        assert(r.len() == 0);
        assert(spec_trim(s) =~= s.subrange(i, j));
    } else {
        lemma_run_len_eq(s, |c: char| is_wsp(c), i);
        let r = s.skip(i);
        assert(forall|k: int| 0 <= k < r.len() ==> r[k] == s[i + k]);
        assert(forall|k: int| r.len() - (s.len() - j) <= k < r.len() ==> is_wsp(#[trigger] r[k]));
        assert(!is_wsp(r[r.len() - (s.len() - j) - 1]));
        lemma_ws_suffix_eq(r, s.len() - j);
        assert(r.take(r.len() - (s.len() - j) as nat) =~= s.subrange(i, j));
    }
}

/// A well-formed version set's text is its own trim: it neither begins
/// nor ends with whitespace.
proof fn lemma_vs_format_trim(m: VersionSetModel)
    requires
        vs_format_wf(m),
    ensures
        spec_trim(spec_vs_format(m)) == spec_vs_format(m),
{
    let s = spec_vs_format(m);
    assert(s[0] == m.package[0]);
    assert(!is_wsp(s[0]));
    match m.constraint {
        None => {
            assert(s[s.len() - 1] == m.package[m.package.len() - 1]);
        },
        Some((r, v)) => {
            assert(s[s.len() - 1] == ')');
        },
    }
    assert(!is_wsp(s[s.len() - 1]));
    lemma_trim_ends(s, 0, s.len() as int);
    assert(s.subrange(0, s.len() as int) =~= s);
}

/// Parsing the rest of a formatted dependency: one leading space, the
/// first alternate's text, then the formatted tail.
#[verifier::rlimit(100)]
proof fn lemma_alts_parse(ms: Seq<VersionSetModel>)
    requires
        ms.len() >= 1,
        forall|i: int|
            0 <= i < ms.len() ==> vs_format_wf(#[trigger] ms[i]) && no_bar(spec_vs_format(ms[i])),
    ensures
        parse_alts(split_on(seq![' '] + spec_vs_format(ms[0]) + alts_format(ms.drop_first()), '|'))
            == Ok::<Seq<VersionSetModel>, (int, VsErr)>(ms),
    decreases ms.len(),
{
    let f0 = spec_vs_format(ms[0]);
    let tail = ms.drop_first();
    let r = seq![' '] + f0 + alts_format(tail);
    lemma_vs_round_trip(ms[0]);
    if tail.len() == 0 {
        assert(r =~= seq![' '] + f0);
        assert(forall|k: int| 0 <= k < r.len() ==> #[trigger] (r[k] as u32) != '|' as u32) by {
            assert(forall|k: int| 1 <= k < r.len() ==> r[k] == f0[k - 1]);
        }
        lemma_find_first_none(r, '|');
        assert(split_on(r, '|') == seq![r]);
        assert(forall|k: int| 1 <= k < r.len() ==> r[k] == f0[k - 1]);
        assert(!is_wsp(r[1]));
        assert(!is_wsp(r[r.len() - 1]));
        lemma_trim_ends(r, 1, r.len() as int);
        assert(r.subrange(1, r.len() as int) =~= f0);
        assert((seq![r])[0] == r);
        assert(seq![r].drop_first() =~= Seq::<Seq<char>>::empty());
        assert(parse_alts(Seq::<Seq<char>>::empty()) == Ok::<Seq<VersionSetModel>, (int, VsErr)>(
            Seq::empty(),
        ));
        assert(parse_alts(seq![r]) == Ok::<Seq<VersionSetModel>, (int, VsErr)>(
            seq![ms[0]] + Seq::empty(),
        ));
        assert(seq![ms[0]] + Seq::<VersionSetModel>::empty() =~= ms);
    } else {
        let rest2 = seq![' '] + spec_vs_format(tail[0]) + alts_format(tail.drop_first());
        assert(alts_format(tail) == seq![' ', '|', ' '] + spec_vs_format(tail[0]) + alts_format(
            tail.drop_first(),
        ));
        let cut = 1 + f0.len() as int + 1;
        assert(r =~= (seq![' '] + f0 + seq![' ']) + seq!['|'] + rest2);
        assert(r[cut] == '|');
        assert(forall|k: int| 0 <= k < cut ==> #[trigger] (r[k] as u32) != '|' as u32) by {
            assert(forall|k: int| 1 <= k < cut - 1 ==> r[k] == f0[k - 1]);
            assert(r[0] == ' ' && r[cut - 1] == ' ');
        }
        lemma_find_first_found(r, '|', cut);
        assert(r.take(cut) =~= seq![' '] + f0 + seq![' ']);
        assert(r.skip(cut + 1) =~= rest2);
        assert(split_on(r, '|') == seq![r.take(cut)] + split_on(rest2, '|'));
        // the first piece trims to the first alternate's text
        let p0 = r.take(cut);
        assert(forall|k: int| 1 <= k < p0.len() - 1 ==> p0[k] == f0[k - 1]);
        assert(!is_wsp(p0[1]) && !is_wsp(p0[p0.len() - 2]));
        assert(is_wsp(p0[0]) && is_wsp(p0[p0.len() - 1]));
        lemma_trim_ends(p0, 1, p0.len() - 1);
        assert(p0.subrange(1, p0.len() - 1) =~= f0);
        assert(forall|i: int| 0 <= i < tail.len() ==> tail[i] == ms[i + 1]);
        lemma_alts_parse(tail);
        assert((seq![r.take(cut)] + split_on(rest2, '|'))[0] == p0);
        assert((seq![r.take(cut)] + split_on(rest2, '|')).drop_first() =~= split_on(rest2, '|'));
        assert(spec_trim(p0) == f0);
        assert(parse_alts(split_on(r, '|')) == Ok::<Seq<VersionSetModel>, (int, VsErr)>(
            seq![ms[0]] + tail,
        ));
        assert(seq![ms[0]] + tail =~= ms);
    }
}

/// Round trip: parsing the textual form of a well-formed dependency
/// yields the dependency back.
#[verifier::rlimit(100)]
pub proof fn lemma_dep_round_trip(d: DependencyModel)
    requires
        dep_format_wf(d),
    ensures
        spec_dep_parse(spec_dep_format(d)) == Ok::<DependencyModel, (int, VsErr)>(d),
{
    let f = spec_vs_format(d.first);
    let s = spec_dep_format(d);
    lemma_vs_round_trip(d.first);
    lemma_vs_format_trim(d.first);
    if d.alternates.len() == 0 {
        assert(s =~= f);
        lemma_find_first_none(s, '|');
        assert(spec_trim(s) == f);
        assert(spec_dep_parse(s) == Ok::<DependencyModel, (int, VsErr)>(
            DependencyModel { first: d.first, alternates: Seq::empty() },
        ));
        assert(DependencyModel { first: d.first, alternates: Seq::<VersionSetModel>::empty() }
            =~= d);
    } else {
        let a = d.alternates;
        assert(alts_format(a) == seq![' ', '|', ' '] + spec_vs_format(a[0]) + alts_format(
            a.drop_first(),
        ));
        let cut = f.len() as int + 1;
        let rest2 = seq![' '] + spec_vs_format(a[0]) + alts_format(a.drop_first());
        assert(s =~= (f + seq![' ']) + seq!['|'] + rest2);
        assert(s[cut] == '|');
        assert(forall|k: int| 0 <= k < cut ==> #[trigger] (s[k] as u32) != '|' as u32) by {
            assert(forall|k: int| 0 <= k < cut - 1 ==> s[k] == f[k]);
            assert(s[cut - 1] == ' ');
        }
        lemma_find_first_found(s, '|', cut);
        assert(s.take(cut) =~= f + seq![' ']);
        assert(s.skip(cut + 1) =~= rest2);
        // the first piece trims to the first member's text
        let p0 = s.take(cut);
        assert(forall|k: int| 0 <= k < p0.len() - 1 ==> p0[k] == f[k]);
        assert(!is_wsp(p0[0]) && !is_wsp(p0[p0.len() - 2]));
        assert(is_wsp(p0[p0.len() - 1]));
        lemma_trim_ends(p0, 0, p0.len() - 1);
        assert(p0.subrange(0, p0.len() - 1) =~= f);
        lemma_alts_parse(a);
        assert(rest2.len() > 0);
        assert(spec_dep_parse(s) == Ok::<DependencyModel, (int, VsErr)>(
            DependencyModel { first: d.first, alternates: a },
        ));
        assert(DependencyModel { first: d.first, alternates: a } =~= d);
    }
}

/// The relation token at or after position `i`.
fn rel_parse_at(s: &str, n: usize, i: usize) -> (r: Option<(Relation, usize)>)
    requires
        n == s@.len(),
        i <= n,
    ensures
        match r {
            Some((rel, k)) => rel_parse(s@.skip(i as int)) == Some((rel, k as nat)),
            None => rel_parse(s@.skip(i as int)) is None,
        },
{
    let ghost t = s@.skip(i as int);
    proof {
        if i < n {
            assert(t[0] == s@[i as int]);
        }
        if i + 1 < n {
            assert(t[1] == s@[i + 1]);
        }
    }
    if i < n {
        let c0 = s.get_char(i);
        let u0: u32 = c0 as u32;
        if u0 == 60 {
            // '<'
            if i + 1 < n {
                let c1 = s.get_char(i + 1);
                let u1: u32 = c1 as u32;
                if u1 == 60 {
                    return Some((Relation::Earlier, 2));
                }
                if u1 == 61 {
                    return Some((Relation::EarlierEqual, 2));
                }
            }
            return None;
        }
        if u0 == 61 {
            // '='
            return Some((Relation::Equal, 1));
        }
        if u0 == 62 {
            // '>'
            if i + 1 < n {
                let c1 = s.get_char(i + 1);
                let u1: u32 = c1 as u32;
                if u1 == 61 {
                    return Some((Relation::LaterEqual, 2));
                }
                if u1 == 62 {
                    return Some((Relation::Later, 2));
                }
            }
            return None;
        }
        return None;
    }
    None
}

} // verus!
