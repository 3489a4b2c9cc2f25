//! The directory layout of a build: every output location derived from the
//! target directory, the optional cross-compilation triple, and the
//! destination name ("debug" or "release").
//!
//! Only the path computation lives here; creating the directories and
//! holding the build lock is the embedding program's job.

use vstd::prelude::*;

verus! {

/// Two path pieces joined with the path separator.
pub open spec fn path_join(a: Seq<char>, b: Seq<char>) -> Seq<char> {
    a + seq!['/'] + b
}

/// Joins two path pieces with the path separator.
pub fn join(a: &str, b: &str) -> (r: String)
    ensures
        r@ == path_join(a@, b@),
{
    let mut out = a.to_owned();
    proof {
        reveal_strlit("/");
    }
    out.append("/");
    out.append(b);
    proof {
        assert(out@ =~= path_join(a@, b@));
    }
    out
}

/// Contains the paths of all target output locations.
pub struct Layout {
    /// The root directory: the target dir, or `target-dir/$TRIPLE` when
    /// cross compiling.
    pub root: String,
    /// The final artifact destination: `$root/debug` (or `release`).
    pub dest: String,
    /// The directory with compiler artifacts: `$dest/deps`.
    pub deps: String,
    /// The directory for build scripts: `$dest/build`.
    pub build: String,
    /// The directory for incremental files: `$dest/incremental`.
    pub incremental: String,
    /// The directory for fingerprints: `$dest/.fingerprint`.
    pub fingerprint: String,
    /// The directory for examples: `$dest/examples`.
    pub examples: String,
    /// The directory for documentation output: `$root/doc`.
    pub doc: String,
    /// The directory for documentation sources: `$root/doc/src`.
    pub src: String,
    /// The directory for temporary data of integration tests and benches:
    /// `$dest/tmp`.
    pub tmp: String,
}

impl Layout {
    /// Every location stands in its documented place under the root.
    pub open spec fn wf(self) -> bool {
        &&& self.deps@ == path_join(self.dest@, "deps"@)
        &&& self.build@ == path_join(self.dest@, "build"@)
        &&& self.incremental@ == path_join(self.dest@, "incremental"@)
        &&& self.fingerprint@ == path_join(self.dest@, ".fingerprint"@)
        &&& self.examples@ == path_join(self.dest@, "examples"@)
        &&& self.doc@ == path_join(self.root@, "doc"@)
        &&& self.src@ == path_join(self.root@, "doc/src"@)
        &&& self.tmp@ == path_join(self.dest@, "tmp"@)
    }

    /// Calculates the paths for build output. `dest_name` is the final
    /// artifact directory name, currently either "debug" or "release".
    pub fn new(target_dir: &str, target: Option<&str>, dest_name: &str) -> (r: Layout)
        ensures
            r.wf(),
            r.root@ == match target {
                Some(t) => path_join(target_dir@, t@),
                None => target_dir@,
            },
            r.dest@ == path_join(r.root@, dest_name@),
    {
        let root: String = match target {
            Some(t) => join(target_dir, t),
            None => target_dir.to_owned(),
        };
        let dest = join(root.as_str(), dest_name);
        let layout = Layout {
            deps: join(dest.as_str(), "deps"),
            build: join(dest.as_str(), "build"),
            incremental: join(dest.as_str(), "incremental"),
            fingerprint: join(dest.as_str(), ".fingerprint"),
            examples: join(dest.as_str(), "examples"),
            doc: join(root.as_str(), "doc"),
            src: join(root.as_str(), "doc/src"),
            tmp: join(dest.as_str(), "tmp"),
            root,
            dest,
        };
        layout
    }

    /// Fetch the destination path for final artifacts.
    pub fn dest(&self) -> (r: &str)
        ensures
            r@ == self.dest@,
    {
        self.dest.as_str()
    }

    /// Fetch the deps path.
    pub fn deps(&self) -> (r: &str)
        ensures
            r@ == self.deps@,
    {
        self.deps.as_str()
    }

    /// Fetch the examples path.
    pub fn examples(&self) -> (r: &str)
        ensures
            r@ == self.examples@,
    {
        self.examples.as_str()
    }

    /// Fetch the doc path.
    pub fn doc(&self) -> (r: &str)
        ensures
            r@ == self.doc@,
    {
        self.doc.as_str()
    }

    /// Fetch the doc/src path.
    pub fn src(&self) -> (r: &str)
        ensures
            r@ == self.src@,
    {
        self.src.as_str()
    }

    /// Fetch the root path.
    pub fn root(&self) -> (r: &str)
        ensures
            r@ == self.root@,
    {
        self.root.as_str()
    }

    /// Fetch the incremental path.
    pub fn incremental(&self) -> (r: &str)
        ensures
            r@ == self.incremental@,
    {
        self.incremental.as_str()
    }

    /// Fetch the fingerprint path.
    pub fn fingerprint(&self) -> (r: &str)
        ensures
            r@ == self.fingerprint@,
    {
        self.fingerprint.as_str()
    }

    /// Fetch the build script path.
    pub fn build(&self) -> (r: &str)
        ensures
            r@ == self.build@,
    {
        self.build.as_str()
    }

    /// Fetch the tmp path; the embedding program creates it before use.
    pub fn tmp(&self) -> (r: &str)
        ensures
            r@ == self.tmp@,
    {
        self.tmp.as_str()
    }
}

} // verus!
