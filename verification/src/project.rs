//! Projects: folders under a root folder, each described by a
//! `project.json` file.  Paths are modelled as `/`-separated strings; the
//! file system is read outside the library, which receives the folder tree
//! and the parsed project descriptions as values.

use vstd::prelude::*;

use crate::value::str_eq;

verus! {

broadcast use vstd::seq::group_seq_axioms, vstd::std_specs::vec::group_vec_axioms;

/// The description a `project.json` carries, together with the path of that
/// file.
#[derive(Debug, PartialEq)]
pub struct Project {
    /// The path of the `project.json` file.
    pub path: String,
    pub description: String,
    /// Free-form kind of the project, for display; `single_file` projects
    /// copy their files into an existing directory.
    pub type_str: Option<String>,
    /// Other projects this one depends on.
    pub depends: Option<Vec<String>>,
}

/// The model of a [`Project`].
pub struct ProjV {
    pub path: Seq<char>,
    pub description: Seq<char>,
    pub type_str: Option<Seq<char>>,
    pub depends: Option<Seq<Seq<char>>>,
}

/// The model of a list of strings.
pub open spec fn strings_view(v: Seq<String>) -> Seq<Seq<char>> {
    Seq::new(v.len(), |i: int| v[i]@)
}

impl View for Project {
    type V = ProjV;

    open spec fn view(&self) -> ProjV {
        ProjV {
            path: self.path@,
            description: self.description@,
            type_str: match self.type_str {
                Option::Some(s) => Option::Some(s@),
                Option::None => Option::None,
            },
            depends: match self.depends {
                Option::Some(d) => Option::Some(strings_view(d@)),
                Option::None => Option::None,
            },
        }
    }
}

impl Clone for Project {
    /// A copy with the same model.
    fn clone(&self) -> (r: Self)
        ensures
            r@ == self@,
    {
        let type_str = match &self.type_str {
            Option::Some(s) => Option::Some(s.clone()),
            Option::None => Option::None,
        };
        let depends = match &self.depends {
            Option::Some(d) => {
                let mut out: Vec<String> = Vec::new();
                let mut i: usize = 0;
                while i < d.len()
                    invariant
                        i <= d.len(),
                        out@.len() == i as int,
                        forall|j: int| 0 <= j < i ==> (#[trigger] out@[j])@ == d@[j]@,
                    decreases d.len() - i,
                {
                    out.push(d[i].clone());
                    i += 1;
                }
                proof {
                    assert(strings_view(out@) =~= strings_view(d@));
                }
                Option::Some(out)
            },
            Option::None => Option::None,
        };
        let r = Project {
            path: self.path.clone(),
            description: self.description.clone(),
            type_str,
            depends,
        };
        r
    }
}

/// The position of the last `/`, or `-1` when there is none.
pub open spec fn last_slash(p: Seq<char>) -> int
    decreases p.len(),
{
    if p.len() == 0 {
        -1
    } else if p.last() == '/' {
        p.len() - 1
    } else {
        last_slash(p.drop_last())
    }
}

/// The path with its last component removed; a single component leaves the
/// empty path.
pub open spec fn parent_of(p: Seq<char>) -> Seq<char> {
    if last_slash(p) < 0 {
        Seq::empty()
    } else {
        p.subrange(0, last_slash(p))
    }
}

pub proof fn lemma_last_slash(p: Seq<char>)
    ensures
        -1 <= last_slash(p) < p.len(),
        last_slash(p) >= 0 ==> p[last_slash(p)] == '/',
        forall|t: int| last_slash(p) < t < p.len() ==> p[t] != '/',
    decreases p.len(),
{
    if p.len() > 0 && p.last() != '/' {
        lemma_last_slash(p.drop_last());
        assert forall|t: int| last_slash(p) < t < p.len() implies p[t] != '/' by {
            if t < p.len() - 1 {
                assert(p.drop_last()[t] == p[t]);
            }
        }
    }
}

/// The position of the last `/`, scanned once left to right.
#[verifier::loop_isolation(false)]
pub fn find_last_slash(s: &str) -> (r: Option<usize>)
    ensures
        match r {
            Option::Some(i) => last_slash(s@) == i as int,
            Option::None => last_slash(s@) == -1,
        },
{
    proof {
        lemma_last_slash(s@);
    }
    let n = s.unicode_len();
    let mut ls: usize = 0;
    let mut found = false;
    let mut i: usize = 0;
    while i < n
        invariant
            i <= n,
            n == s@.len(),
            found ==> ls < i && s@[ls as int] == '/',
            forall|t: int| 0 <= t < i && s@[t] == '/' ==> found && t <= ls,
        decreases n - i,
    {
        if s.get_char(i) == '/' {
            ls = i;
            found = true;
        }
        i += 1;
    }
    if found {
        proof {
            assert(last_slash(s@) == ls as int);
        }
        Option::Some(ls)
    } else {
        proof {
            assert(last_slash(s@) == -1) by {
                if last_slash(s@) >= 0 {
                    assert(s@[last_slash(s@)] == '/');
                }
            }
        }
        Option::None
    }
}

impl Project {
    /// Attaches the path the description was read from.
    pub fn new(path: String, json: Project) -> (r: Self)
        ensures
            r@.path == path@,
            r@.description == json@.description,
            r@.type_str == json@.type_str,
            r@.depends == json@.depends,
    {
        Project {
            path,
            description: json.description,
            type_str: json.type_str,
            depends: json.depends,
        }
    }

    /// The project's identifier: the folder of its `project.json`, without
    /// the root folder's prefix.
    pub fn project_id(self, root_path: &str) -> (r: String)
        requires
            ({
                let parent = parent_of(self.path@);
                ||| root_path@.len() == 0
                ||| parent == root_path@
                ||| (parent.len() > root_path@.len() && parent.subrange(0, root_path@.len() as int)
                    == root_path@ && parent[root_path@.len() as int] == '/')
            }),
    ensures
        ({
            let parent = parent_of(self.path@);
            if root_path@.len() == 0 {
                r@ == parent
            } else if parent == root_path@ {
                r@.len() == 0
            } else {
                r@ == parent.subrange(root_path@.len() + 1int, parent.len() as int)
            }
        }),
    {
        proof {
            lemma_last_slash(self.path@);
        }
        let parent_end = match find_last_slash(self.path.as_str()) {
            Option::Some(ls) => ls,
            Option::None => 0,
        };
        let parent = self.path.as_str().substring_char(0, parent_end);
        let rn = root_path.unicode_len();
        if rn == 0 {
            parent.to_owned()
        } else if str_eq(parent, root_path) {
            String::new()
        } else {
            proof {
                assert(parent@ != root_path@);
            }
            parent.substring_char(rn + 1, parent_end).to_owned()
        }
    }

    /// The name of the folder holding the `project.json`, if the path has
    /// one.
    pub fn base_folder(&self) -> (r: Option<String>)
        ensures
            ({
                let parent = parent_of(self.path@);
                match r {
                    Option::Some(name) => parent.len() > 0 && name@ == parent.subrange(
                        last_slash(parent) + 1,
                        parent.len() as int,
                    ),
                    Option::None => parent.len() == 0,
                }
            }),
    {
        proof {
            lemma_last_slash(self.path@);
        }
        let ls = match find_last_slash(self.path.as_str()) {
            Option::Some(ls) => ls,
            Option::None => {
                return Option::None;
            },
        };
        if ls == 0 {
            proof {
                assert(parent_of(self.path@) =~= Seq::<char>::empty());
            }
            return Option::None;
        }
        let parent = self.path.as_str().substring_char(0, ls);
        let ghost pv = parent_of(self.path@);
        proof {
            lemma_last_slash(pv);
        }
        // the last slash inside the parent, if any
        let start = match find_last_slash(parent) {
            Option::Some(ls2) => ls2 + 1,
            Option::None => 0,
        };
        Option::Some(parent.substring_char(start, ls).to_owned())
    }

    /// The folder the project's files live in: the folder of its
    /// `project.json`.
    pub fn project_source_folder(&self) -> (r: Result<String, String>)
        ensures
            match r {
                Result::Ok(p) => self.path@.len() > 0 && p@ == parent_of(self.path@),
                Result::Err(m) => self.path@.len() == 0 && m@ == "Could not get parent folder"@,
            },
    {
        proof {
            lemma_last_slash(self.path@);
        }
        let n = self.path.as_str().unicode_len();
        if n == 0 {
            return Result::Err(String::from_str("Could not get parent folder"));
        }
        let parent_end = match find_last_slash(self.path.as_str()) {
            Option::Some(ls) => ls,
            Option::None => 0,
        };
        Result::Ok(self.path.as_str().substring_char(0, parent_end).to_owned())
    }

    /// Whether this is a single-file project: its files are copied into an
    /// existing directory rather than a fresh one.
    pub fn is_single_file(&self) -> (r: bool)
        ensures
            r == (self@.type_str == Option::Some("single_file"@)),
    {
        match &self.type_str {
            Option::Some(s) => str_eq(s.as_str(), "single_file"),
            Option::None => false,
        }
    }
}

/// A directory snapshot: its name, its parsed `project.json` when it holds
/// one, and its subdirectories.  Reading the file system into this shape
/// happens outside the library.
pub struct Folder {
    pub name: String,
    pub project: Option<Project>,
    pub subfolders: Vec<Folder>,
}

/// The model of a [`Folder`].
pub struct FolderV {
    pub name: Seq<char>,
    pub project: Option<ProjV>,
    pub subfolders: Seq<FolderV>,
}

impl View for Folder {
    type V = FolderV;

    open spec fn view(&self) -> FolderV
        decreases self,
    {
        FolderV {
            name: self.name@,
            project: match self.project {
                Option::Some(p) => Option::Some(p@),
                Option::None => Option::None,
            },
            subfolders: folders_view(self.subfolders@),
        }
    }
}

/// The model of a list of folders.
pub open spec fn folders_view(fs: Seq<Folder>) -> Seq<FolderV>
    decreases fs,
{
    if fs.len() == 0 {
        Seq::empty()
    } else {
        folders_view(fs.drop_last()) + seq![fs.last()@]
    }
}

pub broadcast proof fn lemma_folders_view(fs: Seq<Folder>)
    ensures
        (#[trigger] folders_view(fs)).len() == fs.len(),
        forall|i: int| 0 <= i < fs.len() ==> folders_view(fs)[i] == #[trigger] fs[i]@,
    decreases fs.len(),
{
    if fs.len() > 0 {
        lemma_folders_view(fs.drop_last());
        assert(folders_view(fs) == folders_view(fs.drop_last()) + seq![fs.last()@]);
        assert(folders_view(fs).len() == fs.len());
        assert forall|i: int| 0 <= i < fs.len() implies folders_view(fs)[i] == #[trigger] fs[i]@ by {
            if i < fs.len() - 1 {
                assert(fs.drop_last()[i] == fs[i]);
            }
        }
    }
}

/// The model of a list of projects.
pub open spec fn projects_view(ps: Seq<Project>) -> Seq<ProjV> {
    Seq::new(ps.len(), |i: int| ps[i]@)
}

/// The projects under a list of folders: a folder with a `project.json`
/// contributes it and is not entered; one without is searched recursively.
pub open spec fn collected(fs: Seq<FolderV>) -> Seq<ProjV>
    decreases fs,
{
    if fs.len() == 0 {
        Seq::empty()
    } else {
        collected(fs.drop_last()) + (match fs.last().project {
            Option::Some(p) => seq![p],
            Option::None => collected(fs.last().subfolders),
        })
    }
}

/// Gathers the projects under a folder: each subfolder either carries a
/// `project.json` or is searched recursively.  On an in-memory snapshot the
/// walk cannot fail.
#[verifier::loop_isolation(false)]
pub fn list_folder(folder: &Folder) -> (r: Result<Vec<Project>, String>)
    ensures
        match r {
            Result::Ok(ps) => projects_view(ps@) == collected(folder@.subfolders),
            Result::Err(_) => false,
        },
    decreases folder,
{
    let ghost m = folders_view(folder.subfolders@);
    proof {
        lemma_folders_view(folder.subfolders@);
    }
    let mut out: Vec<Project> = Vec::new();
    let mut i: usize = 0;
    while i < folder.subfolders.len()
        invariant
            i <= folder.subfolders.len(),
            projects_view(out@) == collected(m.take(i as int)),
        decreases folder.subfolders.len() - i,
    {
        proof {
            assert(m.take(i + 1).drop_last() =~= m.take(i as int));
            assert(m.take(i + 1).last() == folder.subfolders@[i as int]@);
        }
        let ghost base = projects_view(out@);
        let sub = &folder.subfolders[i];
        match &sub.project {
            Option::Some(p) => {
                out.push(p.clone());
                proof {
                    assert(projects_view(out@) =~= base + seq![sub@.project.unwrap()]);
                }
            },
            Option::None => {
                match list_folder(sub) {
                    Result::Ok(found) => {
                        let mut j: usize = 0;
                        while j < found.len()
                            invariant
                                j <= found.len(),
                                projects_view(found@) == collected(sub@.subfolders),
                                projects_view(out@) == base + projects_view(found@).take(j as int),
                            decreases found.len() - j,
                        {
                            let ghost pre = out@;
                            out.push(found[j].clone());
                            proof {
                                assert(projects_view(out@) =~= projects_view(pre) + seq![
                                    found@[j as int]@,
                                ]);
                                assert(projects_view(found@).take(j + 1) =~= projects_view(
                                    found@,
                                ).take(j as int) + seq![found@[j as int]@]);
                                assert(projects_view(out@) =~= base + projects_view(found@).take(
                                    j + 1,
                                ));
                            }
                            j += 1;
                        }
                        proof {
                            assert(projects_view(found@).take(found@.len() as int) =~= collected(
                                sub@.subfolders,
                            ));
                        }
                    },
                    Result::Err(_) => {
                        proof {
                            assert(false);
                        }
                    },
                }
            },
        }
        i += 1;
    }
    proof {
        assert(m.take(folder.subfolders@.len() as int) =~= m);
    }
    Result::Ok(out)
}

/// Gathers the projects under the root folder.  The root itself must not
/// carry a `project.json`.
pub fn list_root_project_folder(root: &Folder) -> (r: Result<Vec<Project>, String>)
    ensures
        match r {
            Result::Ok(ps) => root@.project is None && projects_view(ps@) == collected(
                root@.subfolders,
            ),
            Result::Err(m) => root@.project is Some && m@
                == "root should not contain a project.json file"@,
        },
{
    if root.project.is_some() {
        return Result::Err(String::from_str("root should not contain a project.json file"));
    }
    list_folder(root)
}

/// The position of the first `/`, or `-1` when there is none.
pub open spec fn first_slash(s: Seq<char>) -> int
    decreases s.len(),
{
    if s.len() == 0 {
        -1
    } else if s.first() == '/' {
        0
    } else {
        let r = first_slash(s.drop_first());
        if r == -1 {
            -1
        } else {
            r + 1
        }
    }
}

pub proof fn lemma_first_slash_at(s: Seq<char>, k: int)
    requires
        0 <= k < s.len(),
        s[k] == '/',
        forall|t: int| 0 <= t < k ==> s[t] != '/',
    ensures
        first_slash(s) == k,
    decreases k,
{
    if k > 0 {
        let tail = s.drop_first();
        assert(s[0] != '/');
        assert(tail[k - 1] == s[k]);
        assert forall|t: int| 0 <= t < k - 1 implies tail[t] != '/' by {
            assert(tail[t] == s[t + 1]);
        }
        lemma_first_slash_at(tail, k - 1);
    }
}

pub proof fn lemma_first_slash_none(s: Seq<char>)
    requires
        forall|t: int| 0 <= t < s.len() ==> s[t] != '/',
    ensures
        first_slash(s) == -1,
    decreases s.len(),
{
    if s.len() > 0 {
        let tail = s.drop_first();
        assert forall|t: int| 0 <= t < tail.len() implies tail[t] != '/' by {
            assert(tail[t] == s[t + 1]);
        }
        lemma_first_slash_none(tail);
    }
}

pub proof fn lemma_first_slash_bound(s: Seq<char>)
    ensures
        -1 <= first_slash(s) < s.len(),
    decreases s.len(),
{
    if s.len() > 0 && s.first() != '/' {
        lemma_first_slash_bound(s.drop_first());
    }
}

/// A path split at `/` into its segments; the empty path has none.
pub open spec fn split_slash(s: Seq<char>) -> Seq<Seq<char>>
    decreases s.len(),
{
    if s.len() == 0 {
        Seq::empty()
    } else {
        let f = first_slash(s);
        if f == -1 {
            seq![s]
        } else {
            proof {
                lemma_first_slash_bound(s);
            }
            seq![s.subrange(0, f)] + split_slash(s.subrange(f + 1, s.len() as int))
        }
    }
}

/// Splits a path at `/` into its segments.
#[verifier::loop_isolation(false)]
pub fn split_slash_str(s: &str) -> (r: Vec<String>)
    ensures
        strings_view(r@) == split_slash(s@),
{
    let n = s.unicode_len();
    let mut segs: Vec<String> = Vec::new();
    let mut start: usize = 0;
    let mut i: usize = 0;
    proof {
        assert(s@.subrange(0, n as int) =~= s@);
        assert(strings_view(segs@) =~= Seq::<Seq<char>>::empty());
        assert(Seq::<Seq<char>>::empty() + split_slash(s@) =~= split_slash(s@));
    }
    while i < n
        invariant
            start <= i <= n,
            n == s@.len(),
            split_slash(s@) == strings_view(segs@) + split_slash(s@.subrange(start as int, n as int)),
            forall|t: int| start <= t < i ==> s@[t] != '/',
        decreases n - i,
    {
        if s.get_char(i) == '/' {
            let seg = s.substring_char(start, i).to_owned();
            let ghost rem = s@.subrange(start as int, n as int);
            let ghost pre = segs@;
            proof {
                assert(rem.len() > 0);
                assert(rem[i - start] == s@[i as int]);
                assert forall|t: int| 0 <= t < i - start implies rem[t] != '/' by {
                    assert(rem[t] == s@[start + t]);
                }
                lemma_first_slash_at(rem, i - start);
                assert(rem.subrange(0, i - start) =~= s@.subrange(start as int, i as int));
                assert(rem.subrange(i - start + 1, rem.len() as int) =~= s@.subrange(
                    i + 1,
                    n as int,
                ));
            }
            segs.push(seg);
            proof {
                assert(strings_view(segs@) =~= strings_view(pre) + seq![
                    s@.subrange(start as int, i as int),
                ]);
                assert(strings_view(segs@) + split_slash(s@.subrange(i + 1, n as int))
                    =~= strings_view(pre) + (seq![s@.subrange(start as int, i as int)]
                    + split_slash(s@.subrange(i + 1, n as int))));
            }
            start = i + 1;
        }
        i += 1;
    }
    if start < n {
        let seg = s.substring_char(start, n).to_owned();
        let ghost rem = s@.subrange(start as int, n as int);
        let ghost pre = segs@;
        proof {
            assert forall|t: int| 0 <= t < rem.len() implies rem[t] != '/' by {
                assert(rem[t] == s@[start + t]);
            }
            lemma_first_slash_none(rem);
        }
        segs.push(seg);
        proof {
            assert(strings_view(segs@) =~= strings_view(pre) + seq![rem]);
        }
    } else {
        proof {
            assert(s@.subrange(start as int, n as int).len() == 0);
        }
    }
    proof {
        assert(strings_view(segs@) + Seq::<Seq<char>>::empty() =~= strings_view(segs@));
    }
    segs
}

/// The first subfolder with the given name, if any.
pub open spec fn find_sub(fs: Seq<FolderV>, name: Seq<char>) -> Option<FolderV>
    decreases fs,
{
    if fs.len() == 0 {
        Option::None
    } else if fs.first().name == name {
        Option::Some(fs.first())
    } else {
        find_sub(fs.drop_first(), name)
    }
}

pub proof fn lemma_find_sub_at(fs: Seq<FolderV>, name: Seq<char>, i: int)
    requires
        0 <= i < fs.len(),
        fs[i].name == name,
        forall|j: int| 0 <= j < i ==> (#[trigger] fs[j]).name != name,
    ensures
        find_sub(fs, name) == Option::Some(fs[i]),
    decreases i,
{
    if i > 0 {
        let tail = fs.drop_first();
        assert(fs[0].name != name);
        assert(tail[i - 1] == fs[i]);
        assert forall|j: int| 0 <= j < i - 1 implies (#[trigger] tail[j]).name != name by {
            assert(tail[j] == fs[j + 1]);
        }
        lemma_find_sub_at(tail, name, i - 1);
    }
}

pub proof fn lemma_find_sub_none(fs: Seq<FolderV>, name: Seq<char>)
    requires
        forall|j: int| 0 <= j < fs.len() ==> (#[trigger] fs[j]).name != name,
    ensures
        find_sub(fs, name) is None,
    decreases fs.len(),
{
    if fs.len() > 0 {
        let tail = fs.drop_first();
        assert forall|j: int| 0 <= j < tail.len() implies (#[trigger] tail[j]).name != name by {
            assert(tail[j] == fs[j + 1]);
        }
        lemma_find_sub_none(tail, name);
    }
}

/// The folder reached from `f` by following the segments in order.
pub open spec fn descend(f: FolderV, segs: Seq<Seq<char>>) -> Option<FolderV>
    decreases segs.len(),
{
    if segs.len() == 0 {
        Option::Some(f)
    } else {
        match find_sub(f.subfolders, segs.first()) {
            Option::Some(sub) => descend(sub, segs.drop_first()),
            Option::None => Option::None,
        }
    }
}

pub proof fn lemma_descend_push(f: FolderV, segs: Seq<Seq<char>>, x: Seq<char>)
    ensures
        descend(f, segs.push(x)) == (match descend(f, segs) {
            Option::Some(g) => find_sub(g.subfolders, x),
            Option::None => Option::None::<FolderV>,
        }),
    decreases segs.len(),
{
    if segs.len() == 0 {
        assert(segs.push(x).drop_first() =~= segs);
        assert(segs.push(x).first() == x);
        assert(descend(f, segs) == Option::Some(f));
        match find_sub(f.subfolders, x) {
            Option::Some(sub) => {
                assert(descend(f, segs.push(x)) == descend(sub, segs.push(x).drop_first()));
                assert(descend(sub, segs) == Option::Some(sub));
            },
            Option::None => {
                assert(descend(f, segs.push(x)) is None);
            },
        }
    } else {
        assert(segs.push(x).first() == segs.first());
        assert(segs.push(x).drop_first() =~= segs.drop_first().push(x));
        match find_sub(f.subfolders, segs.first()) {
            Option::Some(sub) => {
                lemma_descend_push(sub, segs.drop_first(), x);
                assert(descend(f, segs.push(x)) == descend(sub, segs.drop_first().push(x)));
                assert(descend(f, segs) == descend(sub, segs.drop_first()));
            },
            Option::None => {
                assert(descend(f, segs.push(x)) is None);
                assert(descend(f, segs) is None);
            },
        }
    }
}

pub proof fn lemma_descend_prefix_none(f: FolderV, segs: Seq<Seq<char>>, t: int)
    requires
        0 <= t < segs.len(),
        descend(f, segs.take(t)) is Some,
        find_sub(descend(f, segs.take(t)).unwrap().subfolders, segs[t]) is None,
    ensures
        descend(f, segs) is None,
    decreases t,
{
    if t == 0 {
        assert(segs.take(0) =~= Seq::<Seq<char>>::empty());
        assert(descend(f, segs.take(0)) == Option::Some(f));
        assert(segs.first() == segs[0]);
    } else {
        let tk = segs.take(t);
        assert(tk.first() == segs.first());
        match find_sub(f.subfolders, segs.first()) {
            Option::Some(sub) => {
                assert(tk.drop_first() =~= segs.drop_first().take(t - 1));
                assert(segs.drop_first()[t - 1] == segs[t]);
                lemma_descend_prefix_none(sub, segs.drop_first(), t - 1);
            },
            Option::None => {
                assert(descend(f, tk) is None);
            },
        }
    }
}

/// Finds the project whose folder the identifier names, relative to the
/// root folder: each `/`-separated segment steps into the named subfolder,
/// which must hold a `project.json`.
#[verifier::loop_isolation(false)]
pub fn get_project<'a>(project_id: &str, root: &'a Folder) -> (r: Result<Project, String>)
    ensures
        ({
            let d = descend(root@, split_slash(project_id@));
            match r {
                Result::Ok(p) => d is Some && d.unwrap().project == Option::Some(p@),
                Result::Err(m) => {
                    ||| (d is None && m@ == "Project does not exist"@)
                    ||| (d is Some && d.unwrap().project is None && m@
                        == "Project does not contain a project.json file"@)
                },
            }
        }),
{
    let segs = split_slash_str(project_id);
    let ghost sm = strings_view(segs@);
    let mut cur: &Folder = root;
    let mut t: usize = 0;
    while t < segs.len()
        invariant
            t <= segs.len(),
            descend(root@, sm.take(t as int)) == Option::Some(cur@),
        decreases segs.len() - t,
    {
        proof {
            lemma_folders_view(cur.subfolders@);
            lemma_descend_push(root@, sm.take(t as int), sm[t as int]);
            assert(sm.take(t as int).push(sm[t as int]) =~= sm.take(t + 1));
        }
        let ghost fsv = folders_view(cur.subfolders@);
        let mut j: usize = 0;
        let mut found = false;
        let mut fidx: usize = 0;
        while j < cur.subfolders.len() && !found
            invariant
                j <= cur.subfolders.len(),
                fsv == folders_view(cur.subfolders@),
                !found ==> forall|w: int| 0 <= w < j ==> (#[trigger] fsv[w]).name != sm[t as int],
                found ==> fidx < cur.subfolders.len() && find_sub(fsv, sm[t as int])
                    == Option::Some(cur.subfolders@[fidx as int]@),
            decreases cur.subfolders.len() - j,
        {
            if str_eq(cur.subfolders[j].name.as_str(), segs[t].as_str()) {
                proof {
                    assert(sm[t as int] == segs@[t as int]@);
                    assert(cur.subfolders@[j as int]@.name == cur.subfolders@[j as int].name@);
                    assert(fsv[j as int].name == sm[t as int]);
                    lemma_find_sub_at(fsv, sm[t as int], j as int);
                }
                found = true;
                fidx = j;
            } else {
                proof {
                    assert(fsv[j as int].name == cur.subfolders@[j as int].name@);
                }
            }
            j += 1;
        }
        if found {
            cur = &cur.subfolders[fidx];
        } else {
            proof {
                lemma_find_sub_none(fsv, sm[t as int]);
                lemma_descend_prefix_none(root@, sm, t as int);
            }
            return Result::Err(String::from_str("Project does not exist"));
        }
        t += 1;
    }
    proof {
        assert(sm.take(segs@.len() as int) =~= sm);
    }
    match &cur.project {
        Option::Some(p) => Result::Ok(p.clone()),
        Option::None => Result::Err(
            String::from_str("Project does not contain a project.json file"),
        ),
    }
}

} // verus!
