use babygit::project::{
    add_file_to_project, add_guest_to_project, create_project, identity_connected,
    identity_disconnected, init, my_projects, validate_project_name, FileKind, Identity, Project,
    ProjectError,
};

fn who(n: u128) -> Identity {
    Identity { hi: 0, lo: n }
}

#[test]
fn name_is_trimmed() {
    assert_eq!(validate_project_name("  hello world \t\n"), Ok("hello world"));
    assert_eq!(validate_project_name("\u{3000}abc\u{2003}"), Ok("abc"));
    assert_eq!(validate_project_name("plain"), Ok("plain"));
}

#[test]
fn empty_name_refused() {
    assert_eq!(validate_project_name(""), Err(ProjectError::EmptyName));
    assert_eq!(validate_project_name(" \t \u{a0} "), Err(ProjectError::EmptyName));
}

#[test]
fn long_name_refused() {
    let ok = "a".repeat(64);
    assert_eq!(validate_project_name(&ok), Ok(ok.as_str()));
    let long = "a".repeat(65);
    assert_eq!(validate_project_name(&long), Err(ProjectError::NameTooLong));
    let padded = format!("   {}   ", "b".repeat(64));
    assert_eq!(validate_project_name(&padded), Ok("b".repeat(64).as_str()));
}

#[test]
fn non_ascii_name_refused() {
    assert_eq!(validate_project_name("h\u{e9}llo"), Err(ProjectError::NonAsciiName));
    // 30 two-byte characters: 60 bytes, within the length limit
    assert_eq!(validate_project_name(&"\u{e9}".repeat(30)), Err(ProjectError::NonAsciiName));
    // 40 two-byte characters: 80 bytes, the length is judged first
    assert_eq!(validate_project_name(&"\u{e9}".repeat(40)), Err(ProjectError::NameTooLong));
}

#[test]
fn error_messages() {
    assert_eq!(ProjectError::EmptyName.message(), "Project name cannot be empty");
    assert_eq!(ProjectError::NameTooLong.message(), "Project name cannot exceed 64 characters");
    assert_eq!(
        ProjectError::NonAsciiName.message(),
        "Project name cannot contain non-ASCII characters"
    );
    assert_eq!(ProjectError::ProjectNotFound.message(), "Project not found");
    assert_eq!(
        ProjectError::AlreadyMember.message(),
        "This person is already part of this project"
    );
}

#[test]
fn new_project_has_no_guests() {
    let p = Project::new(7, "demo".to_string(), who(1));
    assert_eq!(p.id, 7);
    assert_eq!(p.name, "demo");
    assert_eq!(p.author, who(1));
    assert!(p.guests.is_empty());
    assert_eq!(p.common, 0);
}

#[test]
fn create_project_row() {
    let p = create_project(who(3), 42, "  my project ".to_string()).unwrap();
    assert_eq!(p.id, 42);
    assert_eq!(p.name, "my project");
    assert_eq!(p.author, who(3));
    assert!(p.guests.is_empty());
    assert_eq!(p.common, 0);
    assert_eq!(
        create_project(who(3), 43, "   ".to_string()).unwrap_err(),
        ProjectError::EmptyName
    );
    assert_eq!(
        create_project(who(3), 44, "caf\u{e9}".to_string()).unwrap_err(),
        ProjectError::NonAsciiName
    );
}

#[test]
fn guest_added_by_author() {
    let p = Project::new(1, "p".to_string(), who(1));
    let q = add_guest_to_project(who(1), Some(p), who(2)).unwrap();
    assert_eq!(q.guests, vec![who(2)]);
    assert_eq!(q.author, who(1));
    assert_eq!(q.id, 1);
    let r = add_guest_to_project(who(1), Some(q), who(5)).unwrap();
    assert_eq!(r.guests, vec![who(2), who(5)]);
}

#[test]
fn guest_refusals() {
    assert_eq!(
        add_guest_to_project(who(1), None, who(2)).unwrap_err(),
        ProjectError::ProjectNotFound
    );
    let p = Project::new(1, "p".to_string(), who(1));
    assert_eq!(
        add_guest_to_project(who(9), Some(p.clone()), who(2)).unwrap_err(),
        ProjectError::ProjectNotFound
    );
    assert_eq!(
        add_guest_to_project(who(1), Some(p.clone()), who(1)).unwrap_err(),
        ProjectError::AlreadyMember
    );
    let q = add_guest_to_project(who(1), Some(p), who(2)).unwrap();
    assert_eq!(
        add_guest_to_project(who(1), Some(q), who(2)).unwrap_err(),
        ProjectError::AlreadyMember
    );
}

#[test]
fn guest_may_add_nobody() {
    let p = Project::new(1, "p".to_string(), who(1));
    let q = add_guest_to_project(who(1), Some(p), who(2)).unwrap();
    assert_eq!(
        add_guest_to_project(who(2), Some(q), who(3)).unwrap_err(),
        ProjectError::ProjectNotFound
    );
}

#[test]
fn listing_follows_membership() {
    let a = Project::new(1, "a".to_string(), who(1));
    let b = Project::new(2, "b".to_string(), who(2));
    let c = Project::new(3, "c".to_string(), who(1));
    let b = add_guest_to_project(who(2), Some(b), who(1)).unwrap();
    let all = vec![a, b, c];
    let mine: Vec<u128> = my_projects(who(1), &all).iter().map(|p| p.id).collect();
    assert_eq!(mine, vec![1, 2, 3]);
    let theirs: Vec<u128> = my_projects(who(2), &all).iter().map(|p| p.id).collect();
    assert_eq!(theirs, vec![2]);
    assert!(my_projects(who(7), &all).is_empty());
}

#[test]
fn added_guest_sees_project() {
    let p = Project::new(5, "shared".to_string(), who(1));
    let other = Project::new(6, "other".to_string(), who(3));
    assert!(my_projects(who(2), &vec![p.clone(), other.clone()]).is_empty());
    let q = add_guest_to_project(who(1), Some(p), who(2)).unwrap();
    let listed = my_projects(who(2), &vec![q, other]);
    assert_eq!(listed.len(), 1);
    assert_eq!(listed[0].id, 5);
    assert_eq!(listed[0].guests, vec![who(2)]);
}

#[test]
fn author_sees_new_project() {
    let p = create_project(who(4), 9, "fresh".to_string()).unwrap();
    let listed = my_projects(who(4), &vec![p]);
    assert_eq!(listed.len(), 1);
    assert_eq!(listed[0].name, "fresh");
}

#[test]
fn accepted_name_is_stable() {
    let t = validate_project_name("  again ").unwrap();
    assert_eq!(validate_project_name(t), Ok(t));
}

#[test]
fn file_row() {
    let f = add_file_to_project(10, 20, "src/a.rs".to_string(), FileKind::File { contents: vec![1, 2] }, Some(30));
    assert_eq!(f.id, 10);
    assert_eq!(f.project_id, 20);
    assert_eq!(f.path, "src/a.rs");
    assert_eq!(f.parent_id, Some(30));
    match f.kind {
        FileKind::File { contents } => assert_eq!(contents, vec![1, 2]),
        FileKind::Directory => panic!("expected a file"),
    }
    let d = add_file_to_project(11, 20, "src".to_string(), FileKind::Directory, None);
    assert!(matches!(d.kind, FileKind::Directory));
    assert_eq!(d.parent_id, None);
}

#[test]
fn lifecycle_hooks_do_nothing() {
    init();
    identity_connected(who(1));
    identity_disconnected(who(1));
}

#[test]
fn hidden_rows_do_not_change_listing() {
    let a = Project::new(1, "a".to_string(), who(1));
    let hidden = Project::new(2, "h".to_string(), who(9));
    let c = Project::new(3, "c".to_string(), who(1));
    let with: Vec<u128> = my_projects(who(1), &vec![a.clone(), hidden, c.clone()]).iter().map(|p| p.id).collect();
    let without: Vec<u128> = my_projects(who(1), &vec![a, c]).iter().map(|p| p.id).collect();
    assert_eq!(with, without);
}

#[test]
fn created_project_listed_once() {
    let other = Project::new(1, "other".to_string(), who(4));
    let guest_of = add_guest_to_project(who(2), Some(Project::new(5, "x".to_string(), who(2))), who(4)).unwrap();
    let p = create_project(who(4), 7, "  new one  ".to_string()).unwrap();
    let listed = my_projects(who(4), &vec![other, guest_of, p]);
    let with_id: Vec<&Project> = listed.iter().filter(|q| q.id == 7).collect();
    assert_eq!(with_id.len(), 1);
    assert_eq!(with_id[0].name, "new one");
    assert_eq!(with_id[0].author, who(4));
    assert_eq!(listed.last().unwrap().id, 7);
}
