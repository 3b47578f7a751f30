//! Parsing of RPM package archive filenames and of the text produced by a
//! dependency query over one archive, and the package descriptor that
//! combines the two.
//!
//! A filename of the form `<name>-<version>-<release>.<arch>.rpm` is cut
//! right to left: the `.rpm` suffix is removed, the architecture token
//! follows the last `.` of the stem, the release token follows the last `-`
//! before that, and the version token follows the last `-` before the
//! release. Everything earlier is the package name. Each of name, version
//! and release must be non-empty for the filename to parse.

use vstd::prelude::*;

use crate::text::last_idx;
use crate::text::lemma_last_idx;
use crate::text::rfind_char;
use crate::text::str_eq;

verus! {

/// The filename ends with the literal `.rpm`.
pub open spec fn has_rpm_suffix(s: Seq<char>) -> bool {
    &&& s.len() >= 4
    &&& s[s.len() - 4] == '.'
    &&& s[s.len() - 3] == 'r'
    &&& s[s.len() - 2] == 'p'
    &&& s[s.len() - 1] == 'm'
}

/// The filename with its `.rpm` suffix removed.
pub open spec fn spec_stem(s: Seq<char>) -> Seq<char> {
    s.take(s.len() - 4)
}

/// Index in the stem of the `.` that separates the architecture token.
pub open spec fn arch_sep(s: Seq<char>) -> int {
    last_idx(spec_stem(s), '.')
}

/// Index in the stem of the `-` that separates the release token.
pub open spec fn release_sep(s: Seq<char>) -> int {
    last_idx(spec_stem(s).take(arch_sep(s)), '-')
}

/// Index in the stem of the `-` that separates the version token.
pub open spec fn version_sep(s: Seq<char>) -> int {
    last_idx(spec_stem(s).take(release_sep(s)), '-')
}

/// The filename decomposes into non-empty name, version and release
/// components, an architecture token and the `.rpm` suffix.
pub open spec fn nvra_ok(s: Seq<char>) -> bool {
    &&& has_rpm_suffix(s)
    &&& arch_sep(s) >= 0
    &&& release_sep(s) >= 0
    &&& version_sep(s) >= 1
    &&& version_sep(s) + 1 < release_sep(s)
    &&& release_sep(s) + 1 < arch_sep(s)
}

/// Name component of a parseable filename.
pub open spec fn spec_name(s: Seq<char>) -> Seq<char> {
    spec_stem(s).take(version_sep(s))
}

/// Version component of a parseable filename.
pub open spec fn spec_version(s: Seq<char>) -> Seq<char> {
    spec_stem(s).subrange(version_sep(s) + 1, release_sep(s))
}

/// Release component of a parseable filename.
pub open spec fn spec_release(s: Seq<char>) -> Seq<char> {
    spec_stem(s).subrange(release_sep(s) + 1, arch_sep(s))
}

/// Architecture token of a parseable filename.
pub open spec fn spec_arch(s: Seq<char>) -> Seq<char> {
    spec_stem(s).subrange(arch_sep(s) + 1, spec_stem(s).len() as int)
}

/// A filename without the `.rpm` suffix never parses.
pub proof fn lemma_no_suffix_fails(s: Seq<char>)
    requires
        !has_rpm_suffix(s),
    ensures
        !nvra_ok(s),
{
}

/// Split a package archive filename into its name, version, release and
/// architecture components, or report that it does not have that form.
pub fn get_nvra(filename: &str) -> (r: Option<(String, String, String, String)>)
    ensures
        r is Some <==> nvra_ok(filename@),
        r matches Some(t) ==> {
            &&& t.0@ == spec_name(filename@)
            &&& t.1@ == spec_version(filename@)
            &&& t.2@ == spec_release(filename@)
            &&& t.3@ == spec_arch(filename@)
            &&& t.0@.len() > 0
            &&& t.1@.len() > 0
            &&& t.2@.len() > 0
        },
{
    let len = filename.unicode_len();
    if len < 4 {
        return None;
    }
    if !(filename.get_char(len - 4) == '.' && filename.get_char(len - 3) == 'r'
        && filename.get_char(len - 2) == 'p' && filename.get_char(len - 1) == 'm') {
        return None;
    }
    let stem_len = len - 4;
    let ai = match rfind_char(filename, stem_len, '.') {
        Some(i) => i,
        None => {
            return None;
        },
    };
    proof {
        assert(arch_sep(filename@) == ai);
    }
    let ri = match rfind_char(filename, ai, '-') {
        Some(i) => i,
        None => {
            proof {
                assert(filename@.take(ai as int) =~= spec_stem(filename@).take(ai as int));
            }
            return None;
        },
    };
    proof {
        assert(filename@.take(ai as int) =~= spec_stem(filename@).take(ai as int));
        assert(release_sep(filename@) == ri);
    }
    let vi = match rfind_char(filename, ri, '-') {
        Some(i) => i,
        None => {
            proof {
                assert(filename@.take(ri as int) =~= spec_stem(filename@).take(ri as int));
            }
            return None;
        },
    };
    proof {
        assert(filename@.take(ri as int) =~= spec_stem(filename@).take(ri as int));
        assert(version_sep(filename@) == vi);
    }
    if vi < 1 || vi + 1 >= ri || ri + 1 >= ai {
        return None;
    }
    let name = filename.substring_char(0, vi).to_owned();
    let version = filename.substring_char(vi + 1, ri).to_owned();
    let release = filename.substring_char(ri + 1, ai).to_owned();
    let arch = filename.substring_char(ai + 1, stem_len).to_owned();
    proof {
        assert(name@ =~= spec_name(filename@));
        assert(version@ =~= spec_version(filename@));
        assert(release@ =~= spec_release(filename@));
        assert(arch@ =~= spec_arch(filename@));
    }
    Some((name, version, release, arch))
}

/// Length of the first line of `s`: the index of its first `'\n'`, or the
/// length of `s` when it holds none.
pub open spec fn line_end(s: Seq<char>) -> int
    decreases s.len(),
{
    if s.len() == 0 {
        0
    } else if s[0] == '\n' {
        0
    } else {
        1 + line_end(s.skip(1))
    }
}

pub proof fn lemma_line_end_bounds(s: Seq<char>)
    ensures
        0 <= line_end(s) <= s.len(),
    decreases s.len(),
{
    if s.len() > 0 && s[0] != '\n' {
        lemma_line_end_bounds(s.skip(1));
    }
}

/// `line_end` is the position scanning finds: no `'\n'` before `k`, and
/// either the end of the text or a `'\n'` at `k`.
pub proof fn lemma_line_end_at(s: Seq<char>, k: int)
    requires
        0 <= k <= s.len(),
        forall|j: int| 0 <= j < k ==> s[j] != '\n',
        k == s.len() || s[k] == '\n',
    ensures
        line_end(s) == k,
    decreases k,
{
    if k > 0 {
        lemma_line_end_at(s.skip(1), k - 1);
    }
}

/// The identifier of one requirement line: its longest `' '`-free prefix.
pub open spec fn first_token(l: Seq<char>) -> Seq<char>
    decreases l.len(),
{
    if l.len() == 0 || l[0] == ' ' {
        Seq::empty()
    } else {
        seq![l[0]] + first_token(l.skip(1))
    }
}

/// `first_token` is the prefix scanning finds: no `' '` before `k`, and
/// either the end of the line or a `' '` at `k`.
pub proof fn lemma_first_token_at(l: Seq<char>, k: int)
    requires
        0 <= k <= l.len(),
        forall|j: int| 0 <= j < k ==> l[j] != ' ',
        k == l.len() || l[k] == ' ',
    ensures
        first_token(l) == l.take(k),
    decreases k,
{
    if k == 0 {
        assert(first_token(l) =~= l.take(0));
    } else {
        lemma_first_token_at(l.skip(1), k - 1);
        assert(seq![l[0]] + l.skip(1).take(k - 1) =~= l.take(k));
    }
}

/// The line names an internal packaging capability, not a real dependency:
/// it begins with the literal `rpmlib`.
pub open spec fn is_rpmlib_line(l: Seq<char>) -> bool {
    &&& l.len() >= 6
    &&& l[0] == 'r'
    &&& l[1] == 'p'
    &&& l[2] == 'm'
    &&& l[3] == 'l'
    &&& l[4] == 'i'
    &&& l[5] == 'b'
}

/// A line contributes a dependency when it is non-empty and is not an
/// `rpmlib` capability line.
pub open spec fn keeps_line(l: Seq<char>) -> bool {
    l.len() > 0 && !is_rpmlib_line(l)
}

/// The dependency identifiers extracted from query output text: the first
/// token of every contributing line, in line order.
pub open spec fn dep_list(s: Seq<char>) -> Seq<Seq<char>>
    decreases s.len(),
    via dep_list_decreases
{
    if s.len() == 0 {
        Seq::empty()
    } else {
        let e = line_end(s);
        let line = s.take(e);
        let rest = if e == s.len() {
            Seq::<char>::empty()
        } else {
            s.skip(e + 1)
        };
        let head = if keeps_line(line) {
            seq![first_token(line)]
        } else {
            Seq::<Seq<char>>::empty()
        };
        head + dep_list(rest)
    }
}

#[via_fn]
proof fn dep_list_decreases(s: Seq<char>) {
    lemma_line_end_bounds(s);
}

/// Turn the captured output of a dependency query into the list of declared
/// dependency identifiers: one entry per non-empty line that does not begin
/// with `rpmlib`, keeping only the part of the line before the first space.
pub fn rpm_output_to_deps(output: &str) -> (r: Vec<String>)
    ensures
        r@.map_values(|d: String| d@) == dep_list(output@),
{
    let len = output.unicode_len();
    let mut deps: Vec<String> = Vec::new();
    let mut pos: usize = 0;
    proof {
        assert(deps@.map_values(|d: String| d@) =~= Seq::<Seq<char>>::empty());
        assert(output@.skip(0) =~= output@);
        assert(Seq::<Seq<char>>::empty() + dep_list(output@) =~= dep_list(output@));
    }
    while pos < len
        invariant
            pos <= len,
            len == output@.len(),
            dep_list(output@) == deps@.map_values(|d: String| d@) + dep_list(
                output@.skip(pos as int),
            ),
        decreases len - pos,
    {
        let ghost u = output@.skip(pos as int);
        let ghost prev = deps@.map_values(|d: String| d@);
        let mut e: usize = pos;
        while e < len && output.get_char(e) != '\n'
            invariant
                pos <= e <= len,
                len == output@.len(),
                forall|j: int| pos <= j < e ==> output@[j] != '\n',
            decreases len - e,
        {
            e = e + 1;
        }
        proof {
            assert forall|j: int| 0 <= j < e - pos implies u[j] != '\n' by {
                assert(u[j] == output@[pos + j]);
            }
            lemma_line_end_at(u, e - pos);
        }
        let ghost line = u.take(e - pos as int);
        if e > pos {
            let mut skip_line = false;
            if e - pos >= 6 {
                if output.get_char(pos) == 'r' && output.get_char(pos + 1) == 'p'
                    && output.get_char(pos + 2) == 'm' && output.get_char(pos + 3) == 'l'
                    && output.get_char(pos + 4) == 'i' && output.get_char(pos + 5) == 'b' {
                    skip_line = true;
                }
            }
            proof {
                assert(line.len() == e - pos);
                assert forall|j: int| 0 <= j < line.len() implies line[j] == output@[pos + j] by {
                }
                assert(skip_line <==> is_rpmlib_line(line));
            }
            if !skip_line {
                let mut t: usize = pos;
                while t < e && output.get_char(t) != ' '
                    invariant
                        pos <= t <= e <= len,
                        len == output@.len(),
                        forall|j: int| pos <= j < t ==> output@[j] != ' ',
                    decreases len - t,
                {
                    t = t + 1;
                }
                let tok = output.substring_char(pos, t).to_owned();
                proof {
                    assert forall|j: int| 0 <= j < t - pos implies line[j] != ' ' by {
                        assert(line[j] == output@[pos + j]);
                    }
                    lemma_first_token_at(line, t - pos);
                    assert(tok@ =~= line.take(t - pos as int));
                }
                deps.push(tok);
                proof {
                    assert(deps@.map_values(|d: String| d@) =~= prev + seq![first_token(line)]);
                }
            }
        }
        proof {
            assert(keeps_line(line) ==> deps@.map_values(|d: String| d@) =~= prev + seq![
                first_token(line),
            ]);
            assert(!keeps_line(line) ==> deps@.map_values(|d: String| d@) =~= prev);
        }
        if e < len {
            pos = e + 1;
            proof {
                assert(u.skip(line_end(u) + 1) =~= output@.skip(pos as int));
            }
        } else {
            pos = e;
            proof {
                assert(output@.skip(pos as int) =~= Seq::<char>::empty());
            }
        }
        proof {
            assert(dep_list(output@) == deps@.map_values(|d: String| d@) + dep_list(
                output@.skip(pos as int),
            ));
        }
    }
    proof {
        assert(output@.skip(pos as int) =~= Seq::<char>::empty());
        assert(dep_list(output@) =~= deps@.map_values(|d: String| d@));
    }
    deps
}

/// Law: a filename assembled as `<name>-<version>-<release>.<arch>.rpm`
/// from non-empty components parses back to exactly those components,
/// provided version and release hold no `-` and the architecture token
/// holds no `.` (the right-to-left grammar is unambiguous then; the name
/// may hold any characters).
pub proof fn lemma_nvra_round_trip(n: Seq<char>, v: Seq<char>, r: Seq<char>, a: Seq<char>)
    requires
        n.len() > 0,
        v.len() > 0,
        r.len() > 0,
        a.len() > 0,
        forall|j: int| 0 <= j < v.len() ==> v[j] != '-',
        forall|j: int| 0 <= j < r.len() ==> r[j] != '-',
        forall|j: int| 0 <= j < a.len() ==> a[j] != '.',
    ensures
        ({
            let s = n + seq!['-'] + v + seq!['-'] + r + seq!['.'] + a + seq!['.', 'r', 'p', 'm'];
            &&& nvra_ok(s)
            &&& spec_name(s) == n
            &&& spec_version(s) == v
            &&& spec_release(s) == r
            &&& spec_arch(s) == a
        }),
{
    let s = n + seq!['-'] + v + seq!['-'] + r + seq!['.'] + a + seq!['.', 'r', 'p', 'm'];
    assert(has_rpm_suffix(s));
    let stem = spec_stem(s);
    assert(stem =~= n + seq!['-'] + v + seq!['-'] + r + seq!['.'] + a);
    let ai: int = n.len() as int + v.len() as int + r.len() as int + 2;
    assert(stem[ai] == '.');
    assert forall|j: int| ai < j < stem.len() implies stem[j] != '.' by {
        assert(stem[j] == a[j - ai - 1]);
    }
    lemma_last_idx(stem, '.');
    assert(arch_sep(s) == ai);
    let pre = stem.take(ai);
    let ri: int = n.len() as int + v.len() as int + 1;
    assert(pre[ri] == '-');
    assert forall|j: int| ri < j < pre.len() implies pre[j] != '-' by {
        assert(pre[j] == r[j - ri - 1]);
    }
    lemma_last_idx(pre, '-');
    assert(release_sep(s) == ri);
    let pre2 = stem.take(ri);
    let vi = n.len() as int;
    assert(pre2[vi] == '-');
    assert forall|j: int| vi < j < pre2.len() implies pre2[j] != '-' by {
        assert(pre2[j] == v[j - vi - 1]);
    }
    lemma_last_idx(pre2, '-');
    assert(version_sep(s) == vi);
    assert(spec_name(s) =~= n);
    assert(spec_version(s) =~= v);
    assert(spec_release(s) =~= r);
    assert(spec_arch(s) =~= a);
}

/// The closed set of architectures this tool's input family uses.
#[derive(Debug, Clone, PartialEq)]
pub enum RpmArch {
    Noarch,
    X86_64,
    Src,
}

/// The architecture token is one this tool recognizes.
pub open spec fn arch_token_known(a: Seq<char>) -> bool {
    ||| a == "noarch"@
    ||| a == "x86_64"@
    ||| a == "src"@
}

/// The architecture a recognized token denotes.
pub open spec fn arch_of_token(a: Seq<char>) -> RpmArch {
    if a == "noarch"@ {
        RpmArch::Noarch
    } else if a == "x86_64"@ {
        RpmArch::X86_64
    } else {
        RpmArch::Src
    }
}

/// One package archive: its filename components and its declared
/// dependencies as the query over the archive reported them (duplicates
/// kept, in output order).
#[derive(Debug, Clone, PartialEq)]
pub struct RPM {
    pub name: String,
    pub version: String,
    pub release: String,
    pub arch: RpmArch,
    pub deps: Vec<String>,
}

/// Mathematical image of a package descriptor.
pub struct RpmView {
    pub name: Seq<char>,
    pub version: Seq<char>,
    pub release: Seq<char>,
    pub arch: RpmArch,
    pub deps: Seq<Seq<char>>,
}

impl View for RPM {
    type V = RpmView;

    open spec fn view(&self) -> RpmView {
        RpmView {
            name: self.name@,
            version: self.version@,
            release: self.release@,
            arch: self.arch,
            deps: self.deps.deep_view(),
        }
    }
}

impl RPM {
    /// A descriptor never carries an empty name, version or release.
    pub open spec fn wf(&self) -> bool {
        &&& self.name@.len() > 0
        &&& self.version@.len() > 0
        &&& self.release@.len() > 0
    }

    /// Build the descriptor for one archive from its filename and from the
    /// text its dependency query produced. Returns `None` exactly when the
    /// filename does not have the `<name>-<version>-<release>.<arch>.rpm`
    /// form. The caller must hand in only filenames from the expected input
    /// family, whose architecture token is one of the recognized three; any
    /// other token is an internal contract violation, not an input.
    pub fn new(filename: &str, query_output: &str) -> (r: Option<RPM>)
        requires
            nvra_ok(filename@) ==> arch_token_known(spec_arch(filename@)),
        ensures
            r is Some <==> nvra_ok(filename@),
            r matches Some(rpm) ==> {
                &&& rpm@.name == spec_name(filename@)
                &&& rpm@.version == spec_version(filename@)
                &&& rpm@.release == spec_release(filename@)
                &&& rpm@.arch == arch_of_token(spec_arch(filename@))
                &&& rpm@.deps == dep_list(query_output@)
                &&& rpm.wf()
            },
    {
        match get_nvra(filename) {
            None => None,
            Some((name, version, release, arch_tok)) => {
                let arch = if str_eq(arch_tok.as_str(), "noarch") {
                    RpmArch::Noarch
                } else if str_eq(arch_tok.as_str(), "x86_64") {
                    RpmArch::X86_64
                } else {
                    RpmArch::Src
                };
                let deps = rpm_output_to_deps(query_output);
                proof {
                    assert(deps.deep_view() =~= deps@.map_values(|d: String| d@));
                }
                Some(RPM { name, version, release, arch, deps })
            },
        }
    }
}

} // verus!
