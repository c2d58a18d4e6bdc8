//! The rules of the server module: projects, their members, and the files
//! that belong to them.
//!
//! Each reducer of the module reads rows, decides, and writes rows. The
//! functions here are the deciding part: they take the rows that were read
//! and the caller's identity, and give back the row to write or the error that
//! refuses the request.

use vstd::prelude::*;
use vstd::string::*;
use vstd::utf8::*;
use crate::text::{trim, trimmed};

verus! {

/// The identity of a client: a 256-bit number, as its high and low halves.
#[derive(Clone, Copy, Debug, PartialEq, Eq, Structural)]
pub struct Identity {
    pub hi: u128,
    pub lo: u128,
}

/// Why a request about a project was refused.
#[derive(Clone, Copy, Debug, PartialEq, Eq, Structural)]
pub enum ProjectError {
    /// The name is empty once trimmed.
    EmptyName,
    /// The trimmed name takes more than `MAX_NAME_BYTES` bytes.
    NameTooLong,
    /// The trimmed name holds a character outside ASCII.
    NonAsciiName,
    /// No such project, or the caller is not its author.
    ProjectNotFound,
    /// The guest is already the author or a guest of the project.
    AlreadyMember,
}

/// The longest project name, in bytes of UTF-8.
pub const MAX_NAME_BYTES: usize = 64;

/// The text that reports an error to the user.
pub open spec fn error_text(e: ProjectError) -> Seq<char> {
    match e {
        ProjectError::EmptyName => "Project name cannot be empty"@,
        ProjectError::NameTooLong => "Project name cannot exceed 64 characters"@,
        ProjectError::NonAsciiName => "Project name cannot contain non-ASCII characters"@,
        ProjectError::ProjectNotFound => "Project not found"@,
        ProjectError::AlreadyMember => "This person is already part of this project"@,
    }
}

impl ProjectError {
    /// The text that reports this error to the user.
    pub fn message(&self) -> (m: &'static str)
        ensures
            m@ == error_text(*self),
    {
        match self {
            ProjectError::EmptyName => "Project name cannot be empty",
            ProjectError::NameTooLong => "Project name cannot exceed 64 characters",
            ProjectError::NonAsciiName => "Project name cannot contain non-ASCII characters",
            ProjectError::ProjectNotFound => "Project not found",
            ProjectError::AlreadyMember => "This person is already part of this project",
        }
    }
}

/// What a trimmed name is judged to be.
pub open spec fn name_check(t: Seq<char>) -> Result<Seq<char>, ProjectError> {
    if t.len() == 0 {
        Err(ProjectError::EmptyName)
    } else if encode_utf8(t).len() > MAX_NAME_BYTES {
        Err(ProjectError::NameTooLong)
    } else if !is_ascii_chars(t) {
        Err(ProjectError::NonAsciiName)
    } else {
        Ok(t)
    }
}

/// The name that `text` gives a project, or why it gives none.
pub open spec fn validated_name(text: Seq<char>) -> Result<Seq<char>, ProjectError> {
    name_check(trimmed(text))
}

/// Trims a project name and checks it: not empty, at most `MAX_NAME_BYTES`
/// bytes, ASCII only, in that order.
pub fn validate_project_name(text: &str) -> (r: Result<&str, ProjectError>)
    ensures
        match r {
            Ok(t) => validated_name(text@) == Ok::<Seq<char>, ProjectError>(t@),
            Err(e) => validated_name(text@) == Err::<Seq<char>, ProjectError>(e),
        },
{
    let t = trim(text);
    if t.is_empty() {
        return Err(ProjectError::EmptyName);
    }
    if t.as_bytes().len() > MAX_NAME_BYTES {
        return Err(ProjectError::NameTooLong);
    }
    if !t.is_ascii() {
        return Err(ProjectError::NonAsciiName);
    }
    Ok(t)
}


/// A project row: its id, its name, its author, the guests the author let
/// in, and the column that every project row shares (always 0), by which all
/// rows are queried at once.
#[derive(Debug)]
pub struct Project {
    pub id: u128,
    pub name: String,
    pub author: Identity,
    pub guests: Vec<Identity>,
    pub common: u8,
}

/// A project row as a mathematical value.
pub struct ProjectView {
    pub id: u128,
    pub name: Seq<char>,
    pub author: Identity,
    pub guests: Seq<Identity>,
    pub common: u8,
}

impl View for Project {
    type V = ProjectView;

    open spec fn view(&self) -> ProjectView {
        ProjectView {
            id: self.id,
            name: self.name@,
            author: self.author,
            guests: self.guests@,
            common: self.common,
        }
    }
}

/// A copy of a list of identities.
fn copy_identities(v: &Vec<Identity>) -> (r: Vec<Identity>)
    ensures
        r@ == v@,
{
    let mut r: Vec<Identity> = Vec::new();
    let mut i: usize = 0;
    while i < v.len()
        invariant
            i <= v.len(),
            r@ == v@.take(i as int),
        decreases v.len() - i,
    {
        r.push(v[i]);
        i = i + 1;
        assert(r@ =~= v@.take(i as int));
    }
    assert(v@.take(v.len() as int) =~= v@);
    r
}

impl Clone for Project {
    fn clone(&self) -> (r: Self)
        ensures
            r@ == self@,
    {
        Project {
            id: self.id,
            name: self.name.clone(),
            author: self.author,
            guests: copy_identities(&self.guests),
            common: self.common,
        }
    }
}

/// The row of a project that `author` has just created.
pub open spec fn new_project(id: u128, name: Seq<char>, author: Identity) -> ProjectView {
    ProjectView { id, name, author, guests: Seq::empty(), common: 0 }
}

impl Project {
    /// A project with no guests, in the shared group of rows.
    pub fn new(id: u128, name: String, author: Identity) -> (p: Project)
        ensures
            p@ == new_project(id, name@, author),
    {
        Project { id, name, author, guests: Vec::new(), common: 0 }
    }
}

/// Whether `user` may see the project: its author or one of its guests.
pub open spec fn can_see(p: ProjectView, user: Identity) -> bool {
    p.author == user || p.guests.contains(user)
}

/// The projects of `all` that `user` may see, in their order.
pub open spec fn visible_projects(all: Seq<ProjectView>, user: Identity) -> Seq<ProjectView>
    decreases all.len(),
{
    if all.len() == 0 {
        Seq::empty()
    } else {
        let rest = visible_projects(all.drop_last(), user);
        if can_see(all.last(), user) {
            rest.push(all.last())
        } else {
            rest
        }
    }
}

/// The views of a list of project rows.
pub open spec fn project_views(s: Seq<Project>) -> Seq<ProjectView> {
    s.map_values(|p: Project| p@)
}

/// Whether `id` occurs in `ids`.
pub fn contains_identity(ids: &Vec<Identity>, id: Identity) -> (b: bool)
    ensures
        b == ids@.contains(id),
{
    let mut i: usize = 0;
    while i < ids.len()
        invariant
            i <= ids.len(),
            forall|j: int| 0 <= j < i ==> ids@[j] != id,
        decreases ids.len() - i,
    {
        if ids[i] == id {
            return true;
        }
        i = i + 1;
    }
    false
}

/// Whether `user` may see project `p`.
pub fn may_see(p: &Project, user: Identity) -> (b: bool)
    ensures
        b == can_see(p@, user),
{
    p.author == user || contains_identity(&p.guests, user)
}

/// The projects of `all_projects` (the rows of the shared group) that
/// `sender` authored or was let into, in their order.
pub fn my_projects(sender: Identity, all_projects: &Vec<Project>) -> (r: Vec<Project>)
    ensures
        project_views(r@) == visible_projects(project_views(all_projects@), sender),
{
    let mut r: Vec<Project> = Vec::new();
    let mut i: usize = 0;
    while i < all_projects.len()
        invariant
            i <= all_projects.len(),
            project_views(r@) == visible_projects(project_views(all_projects@).take(i as int), sender),
        decreases all_projects.len() - i,
    {
        let ghost all = project_views(all_projects@);
        assert(all.take(i + 1).drop_last() =~= all.take(i as int));
        assert(all.take(i + 1).last() == all_projects@[i as int]@);
        if may_see(&all_projects[i], sender) {
            let p = all_projects[i].clone();
            r.push(p);
            assert(project_views(r@) =~= visible_projects(all.take(i as int), sender).push(p@));
        }
        i = i + 1;
    }
    assert(project_views(all_projects@).take(all_projects.len() as int) =~= project_views(
        all_projects@,
    ));
    r
}

/// The row that creating a project named `text` with id `id` writes, or why
/// the request is refused.
pub open spec fn creation(sender: Identity, id: u128, text: Seq<char>) -> Result<ProjectView, ProjectError> {
    match validated_name(text) {
        Ok(name) => Ok(new_project(id, name, sender)),
        Err(e) => Err(e),
    }
}

/// Creates a project named after the trimmed `name`, authored by `sender`:
/// the row to insert, or why the name is refused.
pub fn create_project(sender: Identity, id: u128, name: String) -> (r: Result<Project, ProjectError>)
    ensures
        match r {
            Ok(p) => creation(sender, id, name@) == Ok::<ProjectView, ProjectError>(p@),
            Err(e) => creation(sender, id, name@) == Err::<ProjectView, ProjectError>(e),
        },
{
    match validate_project_name(name.as_str()) {
        Ok(t) => Ok(Project::new(id, t.to_owned(), sender)),
        Err(e) => Err(e),
    }
}

/// The row that adding `guest` to the project found (if any) writes, or why
/// the request is refused.
pub open spec fn guest_addition(sender: Identity, found: Option<ProjectView>, guest: Identity) -> Result<ProjectView, ProjectError> {
    match found {
        None => Err(ProjectError::ProjectNotFound),
        Some(p) => if p.author != sender {
            Err(ProjectError::ProjectNotFound)
        } else if p.author == guest || p.guests.contains(guest) {
            Err(ProjectError::AlreadyMember)
        } else {
            Ok(ProjectView { guests: p.guests.push(guest), ..p })
        },
    }
}

/// The view of an optional row.
pub open spec fn found_view(found: Option<Project>) -> Option<ProjectView> {
    match found {
        Some(p) => Some(p@),
        None => None,
    }
}

/// Lets `guest_id` into the project found by id (`None` where there is no
/// such row). Only its author may do so, and only for someone who is not a
/// member yet. Gives back the row to update, or why the request is refused.
pub fn add_guest_to_project(sender: Identity, found: Option<Project>, guest_id: Identity) -> (r: Result<Project, ProjectError>)
    ensures
        match r {
            Ok(p) => guest_addition(sender, found_view(found), guest_id) == Ok::<ProjectView, ProjectError>(p@),
            Err(e) => guest_addition(sender, found_view(found), guest_id) == Err::<ProjectView, ProjectError>(e),
        },
{
    match found {
        None => Err(ProjectError::ProjectNotFound),
        Some(mut project) => {
            if project.author != sender {
                return Err(ProjectError::ProjectNotFound);
            }
            if project.author == guest_id || contains_identity(&project.guests, guest_id) {
                return Err(ProjectError::AlreadyMember);
            }
            project.guests.push(guest_id);
            Ok(project)
        },
    }
}

/// What a file row holds: the bytes of a file, or nothing for a directory.
#[derive(Debug)]
pub enum FileKind {
    File { contents: Vec<u8> },
    Directory,
}

/// A file row: its id, its path in the project, what it holds, the directory
/// that holds it (if any) and its project.
#[derive(Debug)]
pub struct File {
    pub id: u128,
    pub path: String,
    pub kind: FileKind,
    pub parent_id: Option<u128>,
    pub project_id: u128,
}

/// The row that adding a file to a project writes: the given values, as
/// they are.
pub fn add_file_to_project(
    id: u128,
    project_id: u128,
    path: String,
    kind: FileKind,
    parent_id: Option<u128>,
) -> (f: File)
    ensures
        f.id == id,
        f.project_id == project_id,
        f.path == path,
        f.kind == kind,
        f.parent_id == parent_id,
{
    File { id, path, kind, parent_id, project_id }
}

/// Runs when the module is first published; nothing is decided there.
pub fn init() {
}

/// Runs when a client connects; nothing is decided there.
pub fn identity_connected(_sender: Identity) {
}

/// Runs when a client disconnects; nothing is decided there.
pub fn identity_disconnected(_sender: Identity) {
}

/// A project's members are distinct: its author is not among its guests, and
/// no guest is listed twice.
pub open spec fn members_distinct(p: ProjectView) -> bool {
    !p.guests.contains(p.author) && p.guests.no_duplicates()
}

/// A project is listed for a user exactly where it is among the rows and the
/// user may see it.
pub proof fn law_visible_iff_member(all: Seq<ProjectView>, user: Identity, p: ProjectView)
    ensures
        visible_projects(all, user).contains(p) <==> (all.contains(p) && can_see(p, user)),
    decreases all.len(),
{
    if all.len() > 0 {
        law_visible_iff_member(all.drop_last(), user, p);
        let rest = visible_projects(all.drop_last(), user);
        if all.contains(p) && p != all.last() {
            let k = choose|k: int| 0 <= k < all.len() && all[k] == p;
            assert(all.drop_last()[k] == p);
        }
        if all.drop_last().contains(p) {
            let k = choose|k: int| 0 <= k < all.drop_last().len() && all.drop_last()[k] == p;
            assert(all[k] == p);
        }
        if can_see(all.last(), user) {
            assert(rest.push(all.last())[rest.len() as int] == all.last());
            if rest.contains(p) {
                let k = choose|k: int| 0 <= k < rest.len() && rest[k] == p;
                assert(rest.push(all.last())[k] == p);
            }
            if rest.push(all.last()).contains(p) && p != all.last() {
                let k = choose|k: int| 0 <= k < rest.len() + 1 && rest.push(all.last())[k] == p;
                assert(rest[k] == p);
            }
        }
        assert(all[all.len() - 1] == all.last());
    }
}

/// The one listing of the projects a user may see does not depend on which
/// other rows stand beside them: a project that a guest was just let into is
/// listed for that guest, and still for its author.
pub proof fn law_added_guest_sees_project(
    sender: Identity,
    all: Seq<ProjectView>,
    i: int,
    guest: Identity,
    q: ProjectView,
)
    requires
        0 <= i < all.len(),
        guest_addition(sender, Some(all[i]), guest) == Ok::<ProjectView, ProjectError>(q),
    ensures
        visible_projects(all.update(i, q), guest).contains(q),
        visible_projects(all.update(i, q), sender).contains(q),
        q.id == all[i].id && q.name == all[i].name && q.author == all[i].author,
        q.guests == all[i].guests.push(guest),
{
    let updated = all.update(i, q);
    assert(updated[i] == q);
    assert(q.guests[q.guests.len() - 1] == guest);
    assert(can_see(q, guest));
    assert(can_see(q, sender));
    law_visible_iff_member(updated, guest, q);
    law_visible_iff_member(updated, sender, q);
}

/// Only the author of a project can let guests in: anyone else is told the
/// project does not exist, and nothing is written.
pub proof fn law_only_author_adds_guests(sender: Identity, p: ProjectView, guest: Identity)
    requires
        p.author != sender,
    ensures
        guest_addition(sender, Some(p), guest) == Err::<ProjectView, ProjectError>(ProjectError::ProjectNotFound),
{
}

/// Letting the same guest in twice is refused the second time.
pub proof fn law_second_addition_refused(sender: Identity, p: ProjectView, guest: Identity, q: ProjectView)
    requires
        guest_addition(sender, Some(p), guest) == Ok::<ProjectView, ProjectError>(q),
    ensures
        guest_addition(sender, Some(q), guest) == Err::<ProjectView, ProjectError>(ProjectError::AlreadyMember),
{
    assert(q.guests[q.guests.len() - 1] == guest);
}

/// A new project has distinct members, and letting a guest in keeps them
/// distinct.
pub proof fn law_members_stay_distinct(sender: Identity, id: u128, text: Seq<char>, guest: Identity, p: ProjectView, q: ProjectView)
    ensures
        creation(sender, id, text) == Ok::<ProjectView, ProjectError>(p) ==> members_distinct(p),
        members_distinct(p) && guest_addition(sender, Some(p), guest) == Ok::<ProjectView, ProjectError>(q)
            ==> members_distinct(q),
{
    if creation(sender, id, text) == Ok::<ProjectView, ProjectError>(p) {
        assert(p.guests =~= Seq::<Identity>::empty());
    }
    if members_distinct(p) && guest_addition(sender, Some(p), guest) == Ok::<ProjectView, ProjectError>(q) {
        assert forall|k: int| 0 <= k < q.guests.len() implies q.guests[k] != q.author by {
            if k < p.guests.len() {
                assert(p.guests[k] == q.guests[k]);
            }
        }
        assert forall|a: int, b: int| 0 <= a < q.guests.len() && 0 <= b < q.guests.len() && a != b
            implies q.guests[a] != q.guests[b] by {
            if a < p.guests.len() && b < p.guests.len() {
                assert(p.guests[a] == q.guests[a] && p.guests[b] == q.guests[b]);
            } else if a < p.guests.len() {
                assert(p.guests[a] == q.guests[a]);
            } else if b < p.guests.len() {
                assert(p.guests[b] == q.guests[b]);
            }
        }
    }
}

/// The author of a new project sees it among their projects.
pub proof fn law_author_sees_new_project(sender: Identity, id: u128, text: Seq<char>, p: ProjectView)
    requires
        creation(sender, id, text) == Ok::<ProjectView, ProjectError>(p),
    ensures
        can_see(p, sender),
        visible_projects(seq![p], sender) == seq![p],
{
    reveal_with_fuel(visible_projects, 2);
    assert(seq![p].drop_last() =~= Seq::<ProjectView>::empty());
}

/// A name that was accepted is accepted again, unchanged.
pub proof fn law_accepted_name_is_stable(text: Seq<char>, t: Seq<char>)
    requires
        validated_name(text) == Ok::<Seq<char>, ProjectError>(t),
    ensures
        validated_name(t) == Ok::<Seq<char>, ProjectError>(t),
{
    crate::text::lemma_trimmed_idempotent(text);
}

/// Listing the rows of two lists one after the other lists the rows of each
/// in turn.
pub proof fn law_listing_splits(x: Seq<ProjectView>, y: Seq<ProjectView>, user: Identity)
    ensures
        visible_projects(x + y, user) == visible_projects(x, user) + visible_projects(y, user),
    decreases y.len(),
{
    if y.len() == 0 {
        assert(x + y =~= x);
        assert(visible_projects(x, user) + visible_projects(y, user) =~= visible_projects(x, user));
    } else {
        law_listing_splits(x, y.drop_last(), user);
        assert((x + y).drop_last() =~= x + y.drop_last());
        assert((x + y).last() == y.last());
        let vx = visible_projects(x, user);
        let vy = visible_projects(y.drop_last(), user);
        assert((vx + vy).push(y.last()) =~= vx + vy.push(y.last()));
    }
}

/// Rows that a user may not see have no influence on what is listed for
/// them: adding such a row anywhere among the rows lists the same projects.
pub proof fn law_hidden_rows_ignored(
    before: Seq<ProjectView>,
    after: Seq<ProjectView>,
    hidden: ProjectView,
    user: Identity,
)
    requires
        !can_see(hidden, user),
    ensures
        visible_projects(before + seq![hidden] + after, user) == visible_projects(before + after, user),
{
    law_listing_splits(before + seq![hidden], after, user);
    law_listing_splits(before, seq![hidden], user);
    law_listing_splits(before, after, user);
    reveal_with_fuel(visible_projects, 2);
    assert(seq![hidden].drop_last() =~= Seq::<ProjectView>::empty());
    assert(visible_projects(before, user) + Seq::<ProjectView>::empty() =~= visible_projects(before, user));
}

/// A project just created, added to rows that hold no project with its id,
/// is listed for its author once: as the last of their projects, named by
/// the trimmed name, and no other project listed for them has its id.
pub proof fn law_created_project_listed_once(
    all: Seq<ProjectView>,
    sender: Identity,
    id: u128,
    text: Seq<char>,
    p: ProjectView,
)
    requires
        creation(sender, id, text) == Ok::<ProjectView, ProjectError>(p),
        forall|i: int| 0 <= i < all.len() ==> (#[trigger] all[i]).id != id,
    ensures
        visible_projects(all.push(p), sender).len() > 0,
        visible_projects(all.push(p), sender).last() == p,
        p.id == id && p.author == sender && validated_name(text) == Ok::<Seq<char>, ProjectError>(p.name),
        forall|k: int| 0 <= k < visible_projects(all.push(p), sender).len() - 1
            ==> (#[trigger] visible_projects(all.push(p), sender)[k]).id != id,
{
    let l = visible_projects(all.push(p), sender);
    assert(all.push(p).drop_last() =~= all);
    assert(can_see(p, sender));
    let v = visible_projects(all, sender);
    assert(l == v.push(p));
    assert forall|k: int| 0 <= k < l.len() - 1 implies (#[trigger] l[k]).id != id by {
        assert(l[k] == v[k]);
        assert(v.contains(v[k]));
        law_visible_iff_member(all, sender, v[k]);
        let j = choose|j: int| 0 <= j < all.len() && all[j] == v[k];
        assert(all[j].id != id);
    }
}

/// A user's list holds a project exactly where it is among the rows and the
/// user is its author or any one of its guests, wherever that guest stands
/// among them.
pub proof fn law_listed_iff_author_or_guest(all: Seq<ProjectView>, user: Identity, p: ProjectView)
    ensures
        visible_projects(all, user).contains(p) <==> (all.contains(p) && (p.author == user || exists|k: int|
            0 <= k < p.guests.len() && p.guests[k] == user)),
{
    law_visible_iff_member(all, user, p);
}

/// The author letting in someone who is neither the author nor one of the
/// guests always succeeds, and the row written is the project with that
/// person appended to its guests, all else unchanged. Anyone else asking,
/// and a person who is already a member, are refused.
pub proof fn law_guest_addition_outcome(sender: Identity, p: ProjectView, guest: Identity)
    ensures
        (p.author == sender && p.author != guest && !(exists|k: int| 0 <= k < p.guests.len() && p.guests[k] == guest))
            ==> guest_addition(sender, Some(p), guest) == Ok::<ProjectView, ProjectError>(
            ProjectView {
                id: p.id,
                name: p.name,
                author: p.author,
                guests: p.guests.push(guest),
                common: p.common,
            },
        ),
        p.author != sender ==> guest_addition(sender, Some(p), guest) == Err::<ProjectView, ProjectError>(
            ProjectError::ProjectNotFound,
        ),
        (p.author == sender && (p.author == guest || exists|k: int| 0 <= k < p.guests.len() && p.guests[k] == guest))
            ==> guest_addition(sender, Some(p), guest) == Err::<ProjectView, ProjectError>(
            ProjectError::AlreadyMember,
        ),
        guest_addition(sender, None, guest) == Err::<ProjectView, ProjectError>(ProjectError::ProjectNotFound),
{
}

/// An accepted name is the trimmed text, not empty, at most 64 bytes of
/// UTF-8, and every character of it is below U+0080. A trimmed name that
/// is not empty and fits in 64 bytes but holds a character at or above
/// U+0080 is refused as not ASCII.
pub proof fn law_accepted_names_are_ascii(text: Seq<char>)
    ensures
        validated_name(text) is Ok ==> ({
            let t = validated_name(text).unwrap();
            &&& t == trimmed(text)
            &&& t.len() > 0
            &&& encode_utf8(t).len() <= 64
            &&& forall|i: int| 0 <= i < t.len() ==> (#[trigger] t[i] as u32) < 0x80
        }),
        (trimmed(text).len() > 0 && encode_utf8(trimmed(text)).len() <= 64 && exists|i: int|
            0 <= i < trimmed(text).len() && (#[trigger] trimmed(text)[i] as u32) >= 0x80)
            ==> validated_name(text) == Err::<Seq<char>, ProjectError>(ProjectError::NonAsciiName),
{
    let t = trimmed(text);
    if validated_name(text) is Ok {
        assert forall|i: int| 0 <= i < t.len() implies (#[trigger] t[i] as u32) < 0x80 by {
            assert('\0' <= t[i] <= '\u{7f}');
        }
    }
    if t.len() > 0 && encode_utf8(t).len() <= 64 && exists|i: int| 0 <= i < t.len() && (#[trigger] t[i] as u32) >= 0x80 {
        let i = choose|i: int| 0 <= i < t.len() && (#[trigger] t[i] as u32) >= 0x80;
        assert(!('\0' <= t[i] <= '\u{7f}'));
        assert(!is_ascii_chars(t));
    }
}

} // verus!
