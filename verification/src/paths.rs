//! Directory layout for a sandboxed build job.
//!
//! A build job owns a tree of host-side directories (rootfs, artefacts,
//! build, ccache, upstreams) and presents each of them to the guest under a
//! fixed mount point.  Paths are modelled textually: a path is a string of
//! characters, a single leading `/` marks an absolute path, and joining
//! inserts a `/` separator unless one is already present.

use vstd::prelude::*;

verus! {

/// Textual path join.  An absolute right-hand side replaces the base, as
/// `PathBuf::join` does; otherwise a separator is inserted unless the base is
/// empty or already ends in one.
pub open spec fn joined(base: Seq<char>, rel: Seq<char>) -> Seq<char> {
    if rel.len() > 0 && rel[0] == '/' {
        rel
    } else if base.len() == 0 {
        rel
    } else if base.last() == '/' {
        base + rel
    } else {
        base + seq!['/'] + rel
    }
}

/// The guest path relative to the guest root: a single leading separator is
/// removed, anything else is kept as it stands.
pub open spec fn stripped_root(p: Seq<char>) -> Seq<char> {
    if p.len() > 0 && p[0] == '/' {
        p.skip(1)
    } else {
        p
    }
}

/// Joins two path fragments with a `/` separator.
pub fn path_join(base: &str, rel: &str) -> (r: String)
    ensures
        r@ == joined(base@, rel@),
{
    proof {
        reveal_strlit("/");
    }
    let rel_len = rel.unicode_len();
    if rel_len > 0 && rel.get_char(0) == '/' {
        let mut out = String::new();
        out.append(rel);
        proof {
            assert(out@ =~= joined(base@, rel@));
        }
        return out;
    }
    let base_len = base.unicode_len();
    if base_len == 0 {
        let mut out = String::new();
        out.append(rel);
        proof {
            assert(out@ =~= joined(base@, rel@));
        }
        return out;
    }
    let mut out = String::new();
    out.append(base);
    if base.get_char(base_len - 1) != '/' {
        out.append("/");
    }
    out.append(rel);
    proof {
        assert(out@ =~= joined(base@, rel@));
    }
    out
}

/// Identity of one build job: the recipe's name, version and release joined
/// with `-`.
#[derive(Debug, Clone)]
pub struct Id(String);

impl Id {
    /// Assembles the identity text `name-version-release` from the recipe
    /// source's fields.
    pub fn new(name: &str, version: &str, release: &str) -> (r: Id)
        ensures
            r@ == name@ + seq!['-'] + version@ + seq!['-'] + release@,
    {
        proof {
            reveal_strlit("-");
        }
        let mut text = String::new();
        text.append(name);
        text.append("-");
        text.append(version);
        text.append("-");
        text.append(release);
        proof {
            assert(text@ =~= name@ + seq!['-'] + version@ + seq!['-'] + release@);
        }
        Id(text)
    }

    /// The identity as text.
    pub fn as_text(&self) -> (r: &str)
        ensures
            r@ == self@,
    {
        self.0.as_str()
    }
}

impl View for Id {
    type V = Seq<char>;

    closed spec fn view(&self) -> Seq<char> {
        self.0@
    }
}

/// A directory as seen from both sides of the sandbox: where it lives on the
/// host filesystem, and where the guest sees it mounted.
pub struct Mapping {
    pub host: String,
    pub guest: String,
}

/// The directory layout of one build job.  The host root and recipe
/// directory are expected to be canonical absolute paths; establishing that
/// (and creating the directories) is the caller's concern, since it takes
/// filesystem access.
#[derive(Debug)]
pub struct Paths {
    id: Id,
    host_root: String,
    guest_root: String,
    recipe_dir: String,
}

impl Paths {
    pub closed spec fn spec_id(self) -> Seq<char> {
        self.id@
    }

    pub closed spec fn spec_host_root(self) -> Seq<char> {
        self.host_root@
    }

    pub closed spec fn spec_guest_root(self) -> Seq<char> {
        self.guest_root@
    }

    pub closed spec fn spec_recipe_dir(self) -> Seq<char> {
        self.recipe_dir@
    }

    /// Lays out a job from its identity and the three anchor directories.
    pub fn new(id: Id, host_root: String, guest_root: String, recipe_dir: String) -> (r: Self)
        ensures
            r.spec_id() == id@,
            r.spec_host_root() == host_root@,
            r.spec_guest_root() == guest_root@,
            r.spec_recipe_dir() == recipe_dir@,
    {
        Self { id, host_root, guest_root, recipe_dir }
    }

    /// The job's private root filesystem, mounted as the guest's `/`.
    pub fn rootfs(&self) -> (r: Mapping)
        ensures
            r.host@ == joined(joined(self.spec_host_root(), "root"@), self.spec_id()),
            r.guest@ == "/"@,
    {
        Mapping {
            host: path_join(path_join(&self.host_root, "root").as_str(), self.id.as_text()),
            guest: String::from_str("/"),
        }
    }

    /// Where produced artefacts land.
    pub fn artefacts(&self) -> (r: Mapping)
        ensures
            r.host@ == joined(joined(self.spec_host_root(), "artefacts"@), self.spec_id()),
            r.guest@ == joined(self.spec_guest_root(), "artefacts"@),
    {
        Mapping {
            host: path_join(path_join(&self.host_root, "artefacts").as_str(), self.id.as_text()),
            guest: path_join(&self.guest_root, "artefacts"),
        }
    }

    /// The working directory of the build itself.
    pub fn build(&self) -> (r: Mapping)
        ensures
            r.host@ == joined(joined(self.spec_host_root(), "build"@), self.spec_id()),
            r.guest@ == joined(self.spec_guest_root(), "build"@),
    {
        Mapping {
            host: path_join(path_join(&self.host_root, "build").as_str(), self.id.as_text()),
            guest: path_join(&self.guest_root, "build"),
        }
    }

    /// The compiler cache, shared across jobs (not keyed by identity).
    pub fn ccache(&self) -> (r: Mapping)
        ensures
            r.host@ == joined(self.spec_host_root(), "ccache"@),
            r.guest@ == joined(self.spec_guest_root(), "ccache"@),
    {
        Mapping {
            host: path_join(&self.host_root, "ccache"),
            guest: path_join(&self.guest_root, "ccache"),
        }
    }

    /// Downloaded upstream sources, shared across jobs.
    pub fn upstreams(&self) -> (r: Mapping)
        ensures
            r.host@ == joined(self.spec_host_root(), "upstreams"@),
            r.guest@ == joined(self.spec_guest_root(), "sourcedir"@),
    {
        Mapping {
            host: path_join(&self.host_root, "upstreams"),
            guest: path_join(&self.guest_root, "sourcedir"),
        }
    }

    /// The directory holding the recipe file.
    pub fn recipe(&self) -> (r: Mapping)
        ensures
            r.host@ == self.spec_recipe_dir(),
            r.guest@ == joined(self.spec_guest_root(), "recipe"@),
    {
        Mapping {
            host: self.recipe_dir.clone(),
            guest: path_join(&self.guest_root, "recipe"),
        }
    }

    /// The guest-side install target.  It has no host-side home of its own,
    /// so the host half is left empty.
    pub fn install(&self) -> (r: Mapping)
        ensures
            r.host@ == Seq::<char>::empty(),
            r.guest@ == joined(self.spec_guest_root(), "install"@),
    {
        Mapping {
            host: String::new(),
            guest: path_join(&self.guest_root, "install"),
        }
    }

    /// For the provided [`Mapping`], returns the guest path as it lives on
    /// the host filesystem: the guest path, made relative, under the job's
    /// rootfs.
    pub fn guest_host_path(&self, mapping: &Mapping) -> (r: String)
        ensures
            r@ == joined(
                joined(joined(self.spec_host_root(), "root"@), self.spec_id()),
                stripped_root(mapping.guest@),
            ),
    {
        proof {
            reveal_strlit("/");
        }
        let guest_len = mapping.guest.as_str().unicode_len();
        let relative: &str = if guest_len > 0 && mapping.guest.as_str().get_char(0) == '/' {
            mapping.guest.as_str().substring_char(1, guest_len)
        } else {
            mapping.guest.as_str()
        };
        proof {
            assert(relative@ =~= stripped_root(mapping.guest@));
        }
        let root = self.rootfs();
        path_join(root.host.as_str(), relative)
    }
}

} // verus!

