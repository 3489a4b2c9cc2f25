//! Target-specific information learned from one probe run of the compiler:
//! which crate types the target supports and with which file name prefix
//! and suffix, plus the flags and configuration that apply to it.
//!
//! Running the compiler is the embedding program's job; everything that
//! reads its captured output is here and verified.

use vstd::prelude::*;
use crate::strutil::{
    first_match, has_substring, lemma_first_match, match_at, spec_lines, spec_trim, split_lines,
    str_contains, str_ends_with, str_eq, str_find, str_starts_with, trim_ws,
};
use crate::unit::{Kind, TargetKind};
use crate::layout::{join, path_join};

verus! {

/// Type of each file generated by a unit.
#[derive(Clone, Copy, PartialEq, Eq, Debug, Structural)]
pub enum FileFlavor {
    /// Not a special file type.
    Normal,
    /// Something to link against (e.g., a library).
    Linkable { rmeta: bool },
    /// Piece of external debug information (e.g., a symbol file).
    DebugInfo,
}

/// One kind of file a compilation produces: how its name is put together
/// around the target's stem.
pub struct FileType {
    pub flavor: FileFlavor,
    pub suffix: String,
    pub prefix: String,
    /// Set for targets that write their artifact under a stem with
    /// underscores in place of hyphens.
    pub should_replace_hyphens: bool,
}

pub open spec fn dash_to_underscore(s: Seq<char>) -> Seq<char> {
    s.map_values(
        |c: char|
            if c == '-' {
                '_'
            } else {
                c
            },
    )
}

impl FileType {
    /// The file name this type gives to a target stem.
    pub fn filename(&self, stem: &str) -> (r: String)
        ensures
            r@ == self.prefix@ + (if self.should_replace_hyphens {
                dash_to_underscore(stem@)
            } else {
                stem@
            }) + self.suffix@,
    {
        let mid: String = if self.should_replace_hyphens {
            crate::strutil::replace_hyphens(stem)
        } else {
            stem.to_owned()
        };
        let mut out = self.prefix.clone();
        out.append(mid.as_str());
        out.append(self.suffix.as_str());
        out
    }
}

/// Whether the probe's diagnostics say this crate type is unsupported on
/// the target: some line names the crate type together with an
/// unsupported/unknown complaint.
pub open spec fn not_supported_in(error: Seq<char>, crate_type: Seq<char>) -> bool {
    exists|i: int|
        0 <= i < spec_lines(error).len() && (has_substring(
            #[trigger] spec_lines(error)[i],
            "unsupported crate type"@,
        ) || has_substring(spec_lines(error)[i], "unknown crate type"@)) && has_substring(
            spec_lines(error)[i],
            crate_type,
        )
}

/// The file name prefix encoded in a trimmed probe line (everything before
/// the first stem marker).
pub open spec fn probe_prefix(t: Seq<char>) -> Seq<char> {
    t.subrange(0, first_match(t, "___"@))
}

/// The file name suffix encoded in a trimmed probe line: the piece after
/// the first stem marker, up to the next one if any.
pub open spec fn probe_suffix(t: Seq<char>) -> Seq<char> {
    let rest = t.subrange(first_match(t, "___"@) + 3, t.len() as int);
    if has_substring(rest, "___"@) {
        rest.subrange(0, first_match(rest, "___"@))
    } else {
        rest
    }
}

/// Why a probe's output could not be understood.
#[derive(Clone, Copy, PartialEq, Eq, Debug, Structural)]
pub enum ProbeError {
    /// A line that should carry file name information is missing.
    TruncatedOutput,
    /// The file-name line does not carry the expected stem marker.
    UnrecognizedOutput,
}

/// Takes one line of probe output (file names printed for a synthetic stem)
/// and calculates the file prefix and suffix for the given crate type, or
/// `None` when the diagnostics say the type is not supported. The caller
/// hands in the line the probe printed for this crate type; when the type
/// is unsupported no line is consumed.
pub fn parse_crate_type(crate_type: &str, error: &str, line: Option<&str>) -> (r: Result<
    Option<(String, String)>,
    ProbeError,
>)
    ensures
        not_supported_in(error@, crate_type@) ==> r == Result::<
            Option<(String, String)>,
            ProbeError,
        >::Ok(None),
        !not_supported_in(error@, crate_type@) ==> match line {
            Some(l) => {
                if has_substring(spec_trim(l@), "___"@) {
                    r matches Ok(p) && p matches Some((pre, suf)) && pre@ == probe_prefix(
                        spec_trim(l@),
                    ) && suf@ == probe_suffix(spec_trim(l@))
                } else {
                    r == Result::<Option<(String, String)>, ProbeError>::Err(
                        ProbeError::UnrecognizedOutput,
                    )
                }
            },
            None => r == Result::<Option<(String, String)>, ProbeError>::Err(
                ProbeError::TruncatedOutput,
            ),
        },
{
    if is_not_supported(error, crate_type) {
        return Ok(None);
    }
    let l = match line {
        Some(l) => l,
        None => {
            return Err(ProbeError::TruncatedOutput);
        },
    };
    let t = trim_ws(l);
    let k = match str_find(t.as_str(), "___") {
        Some(k) => k,
        None => {
            return Err(ProbeError::UnrecognizedOutput);
        },
    };
    proof {
        lemma_first_match(t@, "___"@);
        assert(first_match(t@, "___"@) == k as int) by {
            let fm = first_match(t@, "___"@);
            if fm < k {
                assert(!match_at(t@, "___"@, fm));
            }
            if fm > k {
                assert(!match_at(t@, "___"@, k as int));
            }
        }
        reveal_strlit("___");
    }
    let tlen = t.as_str().unicode_len();
    let prefix = t.as_str().substring_char(0, k);
    let rest = t.as_str().substring_char(k + 3, tlen);
    let suffix: String = match str_find(rest, "___") {
        Some(k2) => {
            proof {
                lemma_first_match(rest@, "___"@);
                let fm = first_match(rest@, "___"@);
                if fm < k2 {
                    assert(!match_at(rest@, "___"@, fm));
                }
                if fm > k2 {
                    assert(!match_at(rest@, "___"@, k2 as int));
                }
            }
            rest.substring_char(0, k2).to_owned()
        },
        None => rest.to_owned(),
    };
    Ok(Some((prefix.to_owned(), suffix)))
}

/// Whether the probe diagnostics mark the crate type unsupported.
fn is_not_supported(error: &str, crate_type: &str) -> (r: bool)
    ensures
        r == not_supported_in(error@, crate_type@),
{
    let lines = split_lines(error);
    let mut i: usize = 0;
    while i < lines.len()
        invariant
            i <= lines@.len(),
            lines@.map_values(|p: String| p@) == spec_lines(error@),
            forall|j: int|
                0 <= j < i ==> !((has_substring(
                    #[trigger] spec_lines(error@)[j],
                    "unsupported crate type"@,
                ) || has_substring(spec_lines(error@)[j], "unknown crate type"@))
                    && has_substring(spec_lines(error@)[j], crate_type@)),
        decreases lines@.len() - i,
    {
        let l = lines[i].as_str();
        proof {
            assert(l@ == spec_lines(error@)[i as int]);
        }
        if (str_contains(l, "unsupported crate type") || str_contains(l, "unknown crate type"))
            && str_contains(l, crate_type) {
            return true;
        }
        i = i + 1;
    }
    false
}

/// The crate types every probe asks about, in the order their lines appear.
pub fn known_crate_types() -> (r: Vec<String>)
    ensures
        r@.map_values(|p: String| p@) =~= known_crate_type_names(),
{
    let mut v: Vec<String> = Vec::new();
    v.push("bin".to_owned());
    v.push("rlib".to_owned());
    v.push("dylib".to_owned());
    v.push("cdylib".to_owned());
    v.push("staticlib".to_owned());
    v.push("proc-macro".to_owned());
    proof {
        assert(v@.map_values(|p: String| p@) =~= known_crate_type_names());
    }
    v
}

pub open spec fn known_crate_type_names() -> Seq<Seq<char>> {
    seq!["bin"@, "rlib"@, "dylib"@, "cdylib"@, "staticlib"@, "proc-macro"@]
}

/// What one probe pass records for each crate type, walking the output
/// lines in order: an unsupported type consumes no line; every other type
/// reads one line, which must carry the stem marker. The result carries
/// the table and the index of the first unread line.
pub open spec fn spec_probe(
    cts: Seq<Seq<char>>,
    lines: Seq<Seq<char>>,
    error: Seq<char>,
    idx: int,
) -> Option<(Seq<(Seq<char>, Option<(Seq<char>, Seq<char>)>)>, int)>
    decreases cts.len(),
{
    if cts.len() == 0 {
        Some((Seq::empty(), idx))
    } else if not_supported_in(error, cts[0]) {
        match spec_probe(cts.drop_first(), lines, error, idx) {
            Some((t, nx)) => Some(
                (seq![(cts[0], Option::<(Seq<char>, Seq<char>)>::None)] + t, nx),
            ),
            None => None,
        }
    } else if idx >= lines.len() {
        None
    } else {
        let t0 = spec_trim(lines[idx]);
        if has_substring(t0, "___"@) {
            match spec_probe(cts.drop_first(), lines, error, idx + 1) {
                Some((t, nx)) => Some(
                    (seq![(cts[0], Some((probe_prefix(t0), probe_suffix(t0))))] + t, nx),
                ),
                None => None,
            }
        } else {
            None
        }
    }
}

/// Which error a failed probe pass reports (meaningful when `spec_probe`
/// gives nothing): walking as `spec_probe` does, the first supported crate
/// type whose line is missing gives `TruncatedOutput`; the first whose
/// line lacks the stem marker gives `UnrecognizedOutput`.
pub open spec fn spec_probe_err(
    cts: Seq<Seq<char>>,
    lines: Seq<Seq<char>>,
    error: Seq<char>,
    idx: int,
) -> ProbeError
    decreases cts.len(),
{
    if cts.len() == 0 {
        ProbeError::TruncatedOutput
    } else if not_supported_in(error, cts[0]) {
        spec_probe_err(cts.drop_first(), lines, error, idx)
    } else if idx >= lines.len() {
        ProbeError::TruncatedOutput
    } else if has_substring(spec_trim(lines[idx]), "___"@) {
        spec_probe_err(cts.drop_first(), lines, error, idx + 1)
    } else {
        ProbeError::UnrecognizedOutput
    }
}

/// The view of a crate-type table.
pub open spec fn tbl_view(table: Seq<(String, Option<(String, String)>)>) -> Seq<
    (Seq<char>, Option<(Seq<char>, Seq<char>)>),
> {
    table.map_values(
        |e: (String, Option<(String, String)>)|
            (
                e.0@,
                match e.1 {
                    Some((p, s)) => Some((p@, s@)),
                    None => None,
                },
            ),
    )
}

/// Records the file-name information for the crate types from `cts[i]` on,
/// reading probe lines from `idx` on.
#[verifier::rlimit(80)]
fn probe_types(cts: &Vec<String>, i: usize, lines: &Vec<String>, idx: usize, error: &str) -> (r:
    Result<(Vec<(String, Option<(String, String)>)>, usize), ProbeError>)
    requires
        i <= cts@.len(),
        idx <= lines@.len(),
    ensures
        match spec_probe(
            cts@.map_values(|p: String| p@).skip(i as int),
            lines@.map_values(|p: String| p@),
            error@,
            idx as int,
        ) {
            Some((t, nx)) => r matches Ok((tab, n)) && tbl_view(tab@) == t && n as int == nx && n
                <= lines@.len(),
            None => r matches Err(e) && e == spec_probe_err(
                cts@.map_values(|p: String| p@).skip(i as int),
                lines@.map_values(|p: String| p@),
                error@,
                idx as int,
            ),
        },
    decreases cts@.len() - i,
{
    let ghost ctsv = cts@.map_values(|p: String| p@);
    let ghost linesv = lines@.map_values(|p: String| p@);
    if i >= cts.len() {
        let tab: Vec<(String, Option<(String, String)>)> = Vec::new();
        proof {
            assert(ctsv.skip(i as int).len() == 0);
            assert(tbl_view(tab@) =~= Seq::<(Seq<char>, Option<(Seq<char>, Seq<char>)>)>::empty());
        }
        return Ok((tab, idx));
    }
    let ct = &cts[i];
    proof {
        assert(ctsv.skip(i as int)[0] == ct@);
        assert(ctsv.skip(i as int).drop_first() =~= ctsv.skip(i + 1int));
    }
    if is_not_supported(error, ct.as_str()) {
        let (mut tab, n) = probe_types(cts, i + 1, lines, idx, error)?;
        tab.insert(0, (ct.clone(), None));
        proof {
            assert(tbl_view(tab@) =~= seq![(ct@, Option::<(Seq<char>, Seq<char>)>::None)]
                + tbl_view(tab@.drop_first()));
        }
        return Ok((tab, n));
    }
    if idx >= lines.len() {
        return Err(ProbeError::TruncatedOutput);
    }
    let line = &lines[idx];
    proof {
        assert(line@ == linesv[idx as int]);
    }
    match parse_crate_type(ct.as_str(), error, Some(line.as_str()))? {
        Some((p, s)) => {
            let (mut tab, n) = probe_types(cts, i + 1, lines, idx + 1, error)?;
            tab.insert(0, (ct.clone(), Some((p, s))));
            proof {
                assert(tbl_view(tab@) =~= seq![
                    (
                        ct@,
                        Some(
                            (
                                probe_prefix(spec_trim(linesv[idx as int])),
                                probe_suffix(spec_trim(linesv[idx as int])),
                            ),
                        ),
                    ),
                ] + tbl_view(tab@.drop_first()));
            }
            Ok((tab, n))
        },
        None => {
            // the diagnostics said unsupported, which the branch above
            // already handled
            proof {
                assert(false);
            }
            Err(ProbeError::UnrecognizedOutput)
        },
    }
}

/// Everything a probe of the compiler teaches us about a target.
pub struct TargetInfo {
    /// File name prefix and suffix per crate type; `None` marks a type the
    /// target does not support.
    pub crate_types: Vec<(String, Option<(String, String)>)>,
    /// The library directory of the toolchain for this target, when the
    /// probe reported the toolchain root.
    pub sysroot_libdir: Option<String>,
    /// Extra flags for the compiler.
    pub rustflags: Vec<String>,
    /// Extra flags for the documentation tool.
    pub rustdocflags: Vec<String>,
    /// The configuration lines the probe reported, when asked for.
    pub cfg: Option<Vec<String>>,
}

/// The stored file-name entry for a crate type, scanning newest first.
pub open spec fn ct_lookup(
    table: Seq<(String, Option<(String, String)>)>,
    ct: Seq<char>,
) -> Option<Option<(String, String)>>
    decreases table.len(),
{
    if table.len() == 0 {
        None
    } else if table.last().0@ == ct {
        Some(table.last().1)
    } else {
        ct_lookup(table.drop_last(), ct)
    }
}

impl TargetInfo {
    /// Builds the information from one probe: `lines` is the probe's
    /// standard output split into lines, `error` its diagnostics. When
    /// `has_cfg_and_sysroot` is set the probe was asked to also print the
    /// toolchain root (one line) and the configuration (the remaining
    /// lines). `host_libdir_is_bin` says where the running platform keeps
    /// the host toolchain's libraries. The flag lists come precomputed
    /// from the environment and configuration.
    #[verifier::rlimit(100)]
    pub fn from_probe(
        lines: &Vec<String>,
        error: &str,
        has_cfg_and_sysroot: bool,
        kind: Kind,
        target_triple: &str,
        host_libdir_is_bin: bool,
        rustflags: Vec<String>,
        rustdocflags: Vec<String>,
    ) -> (r: Result<TargetInfo, ProbeError>)
        ensures
            match spec_probe(
                known_crate_type_names(),
                lines@.map_values(|p: String| p@),
                error@,
                0,
            ) {
                Some((t, nx)) => {
                    if has_cfg_and_sysroot && nx >= lines@.len() {
                        r == Result::<TargetInfo, ProbeError>::Err(ProbeError::TruncatedOutput)
                    } else {
                        r matches Ok(info) && {
                            &&& tbl_view(info.crate_types@) == t
                            &&& info.rustflags@ == rustflags@
                            &&& info.rustdocflags@ == rustdocflags@
                            &&& (!has_cfg_and_sysroot ==> info.sysroot_libdir is None
                                && info.cfg is None)
                            &&& (has_cfg_and_sysroot ==> {
                                &&& info.sysroot_libdir matches Some(d) && d@ == (
                                match kind {
                                    Kind::Host => path_join(
                                        lines@[nx].view(),
                                        if host_libdir_is_bin {
                                            "bin"@
                                        } else {
                                            "lib"@
                                        },
                                    ),
                                    Kind::Target => path_join(
                                        path_join(
                                            path_join(
                                                path_join(lines@[nx].view(), "lib"@),
                                                "rustlib"@,
                                            ),
                                            target_triple@,
                                        ),
                                        "lib"@,
                                    ),
                                })
                                &&& info.cfg matches Some(c) && c@.map_values(|p: String| p@)
                                    == lines@.map_values(|p: String| p@).skip(nx + 1)
                            })
                        }
                    }
                },
                None => r matches Err(e) && e == spec_probe_err(
                    known_crate_type_names(),
                    lines@.map_values(|p: String| p@),
                    error@,
                    0,
                ),
            },
    {
        let known = known_crate_types();
        proof {
            assert(known@.map_values(|p: String| p@).skip(0) =~= known_crate_type_names());
        }
        let (table, next) = probe_types(&known, 0, lines, 0, error)?;
        let mut sysroot_libdir: Option<String> = None;
        let mut cfg: Option<Vec<String>> = None;
        if has_cfg_and_sysroot {
            if next >= lines.len() {
                return Err(ProbeError::TruncatedOutput);
            }
            let sysroot = lines[next].as_str();
            let libdir: String = match kind {
                Kind::Host => {
                    if host_libdir_is_bin {
                        join(sysroot, "bin")
                    } else {
                        join(sysroot, "lib")
                    }
                },
                Kind::Target => {
                    let a = join(sysroot, "lib");
                    let b = join(a.as_str(), "rustlib");
                    let c = join(b.as_str(), target_triple);
                    join(c.as_str(), "lib")
                },
            };
            sysroot_libdir = Some(libdir);
            let mut cfgs: Vec<String> = Vec::new();
            let mut j: usize = next + 1;
            while j < lines.len()
                invariant
                    next + 1 <= j <= lines@.len(),
                    cfgs@.map_values(|p: String| p@) =~= lines@.map_values(
                        |p: String| p@,
                    ).subrange(next + 1int, j as int),
                decreases lines@.len() - j,
            {
                let ghost pre = cfgs@;
                cfgs.push(lines[j].clone());
                proof {
                    let g = |p: String| p@;
                    let lv = lines@.map_values(g);
                    assert(cfgs@.drop_last() =~= pre);
                    assert(cfgs@.last()@ == lv[j as int]);
                    assert(pre.map_values(g).len() == j - (next + 1));
                    assert forall|w: int| 0 <= w < cfgs@.len() implies cfgs@.map_values(g)[w]
                        == lv.subrange(next + 1int, j + 1int)[w] by {
                        if w < cfgs@.len() - 1 {
                            assert(cfgs@[w] == pre[w]);
                            assert(pre.map_values(g)[w] == lv.subrange(next + 1int, j as int)[w]);
                        } else {
                            assert(cfgs@[w] == cfgs@.last());
                        }
                    }
                    assert(cfgs@.map_values(g) =~= lv.subrange(next + 1int, j + 1int));
                }
                j = j + 1;
            }
            proof {
                assert(lines@.map_values(|p: String| p@).subrange(
                    next + 1int,
                    lines@.len() as int,
                ) =~= lines@.map_values(|p: String| p@).skip(next + 1int));
            }
            cfg = Some(cfgs);
        }
        Ok(
            TargetInfo {
                crate_types: table,
                sysroot_libdir,
                rustflags,
                rustdocflags,
                cfg,
            },
        )
    }

    /// The configuration the probe reported, if any.
    pub fn cfg(&self) -> (r: Option<&Vec<String>>)
        ensures
            match r {
                Some(v) => self.cfg matches Some(c) && v@ == c@,
                None => self.cfg is None,
            },
    {
        self.cfg.as_ref()
    }

    /// Whether the file-name information for a crate type is recorded.
    pub fn has_crate_type(&self, crate_type: &str) -> (r: bool)
        ensures
            r == (ct_lookup(self.crate_types@, crate_type@) is Some),
    {
        let mut i: usize = self.crate_types.len();
        proof {
            assert(self.crate_types@.take(self.crate_types@.len() as int) == self.crate_types@);
        }
        while i > 0
            invariant
                i <= self.crate_types@.len(),
                ct_lookup(self.crate_types@, crate_type@) == ct_lookup(
                    self.crate_types@.take(i as int),
                    crate_type@,
                ),
            decreases i,
        {
            proof {
                assert(self.crate_types@.take(i as int).last() == self.crate_types@[i - 1]);
                assert(self.crate_types@.take(i as int).drop_last() == self.crate_types@.take(
                    i - 1int,
                ));
            }
            let e = &self.crate_types[i - 1];
            if str_eq(e.0.as_str(), crate_type) {
                return true;
            }
            i = i - 1;
        }
        false
    }

    /// Records the file-name information for one crate type from a probe
    /// run dedicated to it (first output line), unless the diagnostics say
    /// the type is unsupported.
    #[verifier::rlimit(100)]
    pub fn discover_crate_type(&mut self, crate_type: &str, stdout: &str, stderr: &str) -> (r:
        Result<(), ProbeError>)
        ensures
            final(self).sysroot_libdir == old(self).sysroot_libdir,
            final(self).rustflags@ == old(self).rustflags@,
            final(self).rustdocflags@ == old(self).rustdocflags@,
            final(self).cfg == old(self).cfg,
            not_supported_in(stderr@, crate_type@) ==> r is Ok && tbl_view(
                final(self).crate_types@,
            ) == tbl_view(old(self).crate_types@).push(
                (crate_type@, Option::<(Seq<char>, Seq<char>)>::None),
            ),
            !not_supported_in(stderr@, crate_type@) ==> {
                if spec_lines(stdout@).len() == 0 {
                    r is Err && final(self).crate_types@ == old(self).crate_types@
                } else {
                    let t0 = spec_trim(spec_lines(stdout@)[0]);
                    if has_substring(t0, "___"@) {
                        r is Ok && tbl_view(final(self).crate_types@) == tbl_view(
                            old(self).crate_types@,
                        ).push((crate_type@, Some((probe_prefix(t0), probe_suffix(t0)))))
                    } else {
                        r is Err && final(self).crate_types@ == old(self).crate_types@
                    }
                }
            },
    {
        let lines = split_lines(stdout);
        let first: Option<&str> = if lines.len() > 0 {
            Some(lines[0].as_str())
        } else {
            None
        };
        let parsed = parse_crate_type(crate_type, stderr, first)?;
        self.crate_types.push((crate_type.to_owned(), parsed));
        proof {
            assert(tbl_view(self.crate_types@) =~= tbl_view(old(self).crate_types@).push(
                (
                    crate_type@,
                    match self.crate_types@.last().1 {
                        Some((p, s)) => Some((p@, s@)),
                        None => None,
                    },
                ),
            ));
        }
        Ok(())
    }
}

} // verus!

verus! {

/// A dynamic library on the MSVC toolchain also produces an import
/// library next to the `.dll`.
pub open spec fn wants_dll_lib(triple: Seq<char>, ct: Seq<char>, suffix: Seq<char>) -> bool {
    &&& "pc-windows-msvc"@.len() <= triple.len() && triple.subrange(
        triple.len() - "pc-windows-msvc"@.len(),
        triple.len() as int,
    ) == "pc-windows-msvc"@
    &&& "dylib"@.len() <= ct.len() && ct.subrange(ct.len() - "dylib"@.len(), ct.len() as int)
        == "dylib"@
    &&& suffix == ".dll"@
}

/// A wasm binary produces a loader script plus the wasm module, the
/// latter under a stem with underscores for hyphens.
pub open spec fn wants_wasm(triple: Seq<char>, ct: Seq<char>, suffix: Seq<char>) -> bool {
    &&& "wasm32-"@.len() <= triple.len() && triple.subrange(0, "wasm32-"@.len() as int)
        == "wasm32-"@
    &&& ct == "bin"@
    &&& suffix == ".js"@
}

/// The external debug-information suffix uplifted next to an executable:
/// only binaries get it (and example binaries on apple platforms, where
/// the symbol file name must match the executable name).
pub open spec fn dbg_suffix(triple: Seq<char>, kind: TargetKind) -> Option<Seq<char>> {
    let is_apple = has_substring(triple, "-apple-"@);
    if kind is Bin || (kind is ExampleBin && is_apple) {
        if is_apple {
            Some(".dSYM"@)
        } else if "-msvc"@.len() <= triple.len() && triple.subrange(
            triple.len() - "-msvc"@.len(),
            triple.len() as int,
        ) == "-msvc"@ {
            Some(".pdb"@)
        } else {
            None
        }
    } else {
        None
    }
}

/// The exact list of file types a supported crate type produces: the main
/// artifact first, then the MSVC import library, the wasm module, and the
/// debug-information file, each exactly when its platform rule asks for it.
pub open spec fn file_types_match(
    v: Seq<FileType>,
    prefix: Seq<char>,
    suffix: Seq<char>,
    flavor: FileFlavor,
    kind: TargetKind,
    triple: Seq<char>,
    ct: Seq<char>,
) -> bool {
    let dll = wants_dll_lib(triple, ct, suffix);
    let wasm = wants_wasm(triple, ct, suffix);
    let dbg = dbg_suffix(triple, kind);
    let iw: int = 1 + if dll {
        1int
    } else {
        0int
    };
    &&& v.len() == iw + (if wasm {
        1int
    } else {
        0int
    }) + (if dbg is Some {
        1int
    } else {
        0int
    })
    &&& v[0].flavor == flavor && v[0].prefix@ == prefix && v[0].suffix@ == suffix
        && !v[0].should_replace_hyphens
    &&& (dll ==> v[1].flavor is Normal && v[1].prefix@ == prefix && v[1].suffix@ == ".dll.lib"@
        && !v[1].should_replace_hyphens)
    &&& (wasm ==> v[iw].flavor is Normal && v[iw].prefix@ == prefix && v[iw].suffix@ == ".wasm"@
        && v[iw].should_replace_hyphens)
    &&& (dbg matches Some(ds) ==> v[v.len() - 1].flavor is DebugInfo && v[v.len() - 1].prefix@
        == prefix && v[v.len() - 1].suffix@ == ds && !v[v.len() - 1].should_replace_hyphens)
}

impl TargetInfo {
    /// The files a unit of the given crate type produces on this target,
    /// or `None` when the target does not support the type. The type's
    /// file-name information must have been recorded (see
    /// `has_crate_type` and `discover_crate_type`).
    pub fn file_types(
        &self,
        crate_type: &str,
        flavor: FileFlavor,
        kind: &TargetKind,
        target_triple: &str,
    ) -> (r: Option<Vec<FileType>>)
        requires
            ct_lookup(self.crate_types@, crate_type@) is Some,
        ensures
            match ct_lookup(self.crate_types@, crate_type@) {
                Some(entry) => match entry {
                    None => r is None,
                    Some((pre, suf)) => r matches Some(v) && file_types_match(
                        v@,
                        pre@,
                        suf@,
                        flavor,
                        *kind,
                        target_triple@,
                        crate_type@,
                    ),
                },
                None => false,
            },
    {
        let mut i: usize = self.crate_types.len();
        proof {
            assert(self.crate_types@.take(self.crate_types@.len() as int) == self.crate_types@);
        }
        let mut entry: Option<(String, String)> = None;
        let mut found = false;
        while i > 0 && !found
            invariant
                i <= self.crate_types@.len(),
                !found ==> ct_lookup(self.crate_types@, crate_type@) == ct_lookup(
                    self.crate_types@.take(i as int),
                    crate_type@,
                ),
                found ==> (ct_lookup(self.crate_types@, crate_type@) matches Some(e) && (match e {
                    Some((p, s)) => entry matches Some((p2, s2)) && p2@ == p@ && s2@ == s@,
                    None => entry is None,
                })),
            decreases i,
        {
            proof {
                assert(self.crate_types@.take(i as int).last() == self.crate_types@[i - 1]);
                assert(self.crate_types@.take(i as int).drop_last() == self.crate_types@.take(
                    i - 1int,
                ));
            }
            let e = &self.crate_types[i - 1];
            if str_eq(e.0.as_str(), crate_type) {
                entry = match &e.1 {
                    Some((p, s)) => Some((p.clone(), s.clone())),
                    None => None,
                };
                found = true;
            }
            i = i - 1;
        }
        proof {
            if !found {
                assert(ct_lookup(self.crate_types@.take(0), crate_type@) is None);
            }
        }
        let (prefix, suffix) = match entry {
            Some(ps) => ps,
            None => {
                return None;
            },
        };
        let mut ret: Vec<FileType> = Vec::new();
        ret.push(
            FileType {
                suffix: suffix.clone(),
                prefix: prefix.clone(),
                flavor,
                should_replace_hyphens: false,
            },
        );
        let dll = str_ends_with(target_triple, "pc-windows-msvc") && str_ends_with(
            crate_type,
            "dylib",
        ) && str_eq(suffix.as_str(), ".dll");
        if dll {
            ret.push(
                FileType {
                    suffix: ".dll.lib".to_owned(),
                    prefix: prefix.clone(),
                    flavor: FileFlavor::Normal,
                    should_replace_hyphens: false,
                },
            );
        }
        let wasm = str_starts_with(target_triple, "wasm32-") && str_eq(crate_type, "bin")
            && str_eq(suffix.as_str(), ".js");
        if wasm {
            ret.push(
                FileType {
                    suffix: ".wasm".to_owned(),
                    prefix: prefix.clone(),
                    flavor: FileFlavor::Normal,
                    should_replace_hyphens: true,
                },
            );
        }
        let is_apple = str_contains(target_triple, "-apple-");
        if matches!(kind, TargetKind::Bin) || (matches!(kind, TargetKind::ExampleBin)
            && is_apple) {
            if is_apple {
                ret.push(
                    FileType {
                        suffix: ".dSYM".to_owned(),
                        prefix: prefix.clone(),
                        flavor: FileFlavor::DebugInfo,
                        should_replace_hyphens: false,
                    },
                );
            } else if str_ends_with(target_triple, "-msvc") {
                ret.push(
                    FileType {
                        suffix: ".pdb".to_owned(),
                        prefix: prefix.clone(),
                        flavor: FileFlavor::DebugInfo,
                        should_replace_hyphens: false,
                    },
                );
            }
        }
        Some(ret)
    }
}

} // verus!

verus! {

/// Each piece with its leading and trailing white space removed.
pub open spec fn trimmed_pieces(ps: Seq<Seq<char>>) -> Seq<Seq<char>> {
    ps.map_values(|p: Seq<char>| spec_trim(p))
}

/// An environment flag string split at spaces, each piece trimmed, empty
/// pieces dropped.
pub open spec fn spec_env_flags(s: Seq<char>) -> Seq<Seq<char>> {
    trimmed_pieces(crate::strutil::spec_split(s, ' ')).filter(|p: Seq<char>| p.len() > 0)
}

/// The views of a flag list.
pub open spec fn flag_views(v: Seq<String>) -> Seq<Seq<char>> {
    v.map_values(|s: String| s@)
}

/// The views of a list of flag lists, flattened in order.
pub open spec fn flag_views_flat(vs: Seq<Vec<String>>) -> Seq<Seq<char>>
    decreases vs.len(),
{
    if vs.len() == 0 {
        Seq::empty()
    } else {
        flag_views_flat(vs.drop_last()) + flag_views(vs.last()@)
    }
}

proof fn lemma_flag_views_push(s: Seq<String>, x: String)
    ensures
        flag_views(s.push(x)) =~= flag_views(s).push(x@),
{
    assert forall|j: int| 0 <= j < s.len() + 1 implies flag_views(s.push(x))[j] == flag_views(
        s,
    ).push(x@)[j] by {
        if j < s.len() {
            assert(s.push(x)[j] == s[j]);
        } else {
            assert(s.push(x)[j] == x);
        }
    }
}

proof fn lemma_views_take_push(s: Seq<Seq<char>>, i: int)
    requires
        0 <= i < s.len(),
    ensures
        s.take(i).push(s[i]) =~= s.take(i + 1),
{
}

/// Extra flags for the compiler, decided from their sources in order.
///
/// Flags apply only to builds for the requested architecture: with an
/// explicit requested target, host units (build scripts, plugins) get
/// none. Otherwise the environment variable's value wins when present
/// (split at spaces, each piece trimmed, empty pieces dropped); then the
/// per-target flags from the configuration
/// together with the matching `cfg(..)` entries (the caller hands those
/// in already matched against the target and sorted); and last the
/// default build flags from the configuration.
pub fn env_args(
    requested_target: &Option<String>,
    kind: Kind,
    env_value: &Option<String>,
    target_flags: &Option<Vec<String>>,
    cfg_flags: &Vec<Vec<String>>,
    build_flags: &Option<Vec<String>>,
) -> (r: Vec<String>)
    ensures
        requested_target is Some && kind is Host ==> r@.len() == 0,
        !(requested_target is Some && kind is Host) ==> match env_value {
            Some(s) => flag_views(r@) == spec_env_flags(s@),
            None => {
                let tf = match target_flags {
                    Some(t) => flag_views(t@),
                    None => Seq::<Seq<char>>::empty(),
                };
                let cf = flag_views_flat(cfg_flags@);
                if tf.len() + cf.len() > 0 {
                    flag_views(r@) == tf + cf
                } else {
                    match build_flags {
                        Some(b) => flag_views(r@) == flag_views(b@),
                        None => r@.len() == 0,
                    }
                }
            },
        },
{
    if requested_target.is_some() && matches!(kind, Kind::Host) {
        return Vec::new();
    }
    if let Some(s) = env_value {
        let pieces = crate::strutil::str_split_char(s.as_str(), ' ');
        let mut out: Vec<String> = Vec::new();
        let ghost pv = pieces@.map_values(|p: String| p@);
        let mut i: usize = 0;
        while i < pieces.len()
            invariant
                i <= pieces@.len(),
                pieces@.map_values(|p: String| p@) == pv,
                flag_views(out@) == trimmed_pieces(pv.take(i as int)).filter(
                    |p: Seq<char>| p.len() > 0,
                ),
            decreases pieces@.len() - i,
        {
            proof {
                assert(trimmed_pieces(pv.take(i + 1int)).drop_last() =~= trimmed_pieces(
                    pv.take(i as int),
                ));
                assert(trimmed_pieces(pv.take(i + 1int)).last() == spec_trim(pv[i as int]));
                reveal_with_fuel(Seq::filter, 2);
            }
            let ghost out_pre = out@;
            let piece = &pieces[i];
            proof {
                assert(piece@ == pv[i as int]);
            }
            let t = trim_ws(piece.as_str());
            if t.as_str().unicode_len() > 0 {
                out.push(t);
                proof {
                    lemma_flag_views_push(out_pre, out@.last());
                    assert(out@ =~= out_pre.push(out@.last()));
                    assert(flag_views(out@) =~= flag_views(out_pre).push(spec_trim(pv[i as int])));
                }
            }
            proof {
                assert(flag_views(out@) =~= trimmed_pieces(pv.take(i + 1int)).filter(
                    |p: Seq<char>| p.len() > 0,
                ));
            }
            i = i + 1;
        }
        proof {
            assert(pv.take(pv.len() as int) == pv);
            assert(spec_env_flags(s@) == trimmed_pieces(pv).filter(|p: Seq<char>| p.len() > 0));
            assert(flag_views(out@) =~= spec_env_flags(s@));
        }
        return out;
    }
    let mut flags: Vec<String> = Vec::new();
    if let Some(t) = target_flags {
        let mut i: usize = 0;
        while i < t.len()
            invariant
                i <= t@.len(),
                flag_views(flags@) =~= flag_views(t@).take(i as int),
            decreases t@.len() - i,
        {
            let ghost pre = flags@;
            flags.push(t[i].clone());
            proof {
                lemma_flag_views_push(pre, flags@.last());
                assert(flags@ =~= pre.push(flags@.last()));
                lemma_views_take_push(flag_views(t@), i as int);
                assert(flag_views(flags@) =~= flag_views(t@).take(i + 1int));
            }
            i = i + 1;
        }
        proof {
            assert(flag_views(t@).take(t@.len() as int) == flag_views(t@));
        }
    }
    let ghost tf = match target_flags {
        Some(t) => flag_views(t@),
        None => Seq::<Seq<char>>::empty(),
    };
    proof {
        assert(flag_views(flags@) =~= tf);
    }
    let mut c: usize = 0;
    while c < cfg_flags.len()
        invariant
            c <= cfg_flags@.len(),
            flag_views(flags@) =~= tf + flag_views_flat(cfg_flags@.take(c as int)),
        decreases cfg_flags@.len() - c,
    {
        let group = &cfg_flags[c];
        let ghost pre = flags@;
        let mut i: usize = 0;
        while i < group.len()
            invariant
                i <= group@.len(),
                group@ == cfg_flags@[c as int]@,
                flag_views(flags@) =~= flag_views(pre) + flag_views(group@).take(i as int),
            decreases group@.len() - i,
        {
            let ghost fpre = flags@;
            flags.push(group[i].clone());
            proof {
                lemma_flag_views_push(fpre, flags@.last());
                assert(flags@ =~= fpre.push(flags@.last()));
                lemma_views_take_push(flag_views(group@), i as int);
                assert(flag_views(flags@) =~= flag_views(pre) + flag_views(group@).take(
                    i + 1int,
                ));
            }
            i = i + 1;
        }
        proof {
            assert(flag_views(group@).take(group@.len() as int) == flag_views(group@));
            assert(cfg_flags@.take(c + 1int).drop_last() == cfg_flags@.take(c as int));
            assert(cfg_flags@.take(c + 1int).last() == cfg_flags@[c as int]);
            assert(flag_views(flags@) =~= tf + flag_views_flat(cfg_flags@.take(c + 1int)));
        }
        c = c + 1;
    }
    proof {
        assert(cfg_flags@.take(cfg_flags@.len() as int) == cfg_flags@);
    }
    if flags.len() > 0 {
        return flags;
    }
    proof {
        assert(flag_views(flags@).len() == 0);
    }
    match build_flags {
        Some(b) => {
            let mut out: Vec<String> = Vec::new();
            let mut i: usize = 0;
            while i < b.len()
                invariant
                    i <= b@.len(),
                    flag_views(out@) =~= flag_views(b@).take(i as int),
                decreases b@.len() - i,
            {
                let ghost opre = out@;
                out.push(b[i].clone());
                proof {
                    lemma_flag_views_push(opre, out@.last());
                    assert(out@ =~= opre.push(out@.last()));
                    lemma_views_take_push(flag_views(b@), i as int);
                    assert(flag_views(out@) =~= flag_views(b@).take(i + 1int));
                }
                i = i + 1;
            }
            proof {
                assert(flag_views(b@).take(b@.len() as int) == flag_views(b@));
            }
            out
        },
        None => Vec::new(),
    }
}

} // verus!
