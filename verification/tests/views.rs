use jj_lib::protos::simple_op_store;
use prost::Message;
use tandem::order::TextMap;
use tandem::views::{
    read_view, read_view_form, view_from_proto, view_to_proto, write_view, BookmarkForm, FormError,
    GitRefForm, RefTarget, RefTargetForm, RemoteBookmarkForm, RemoteRef, RemoteRefForm,
    RemoteRefState, RemoteView, RemoteViewForm, RepoView, RepoViewForm, TagForm, ViewError,
};

fn at(id: u8) -> RefTarget {
    RefTarget { terms: vec![Some(vec![id])] }
}

fn conflict() -> RefTarget {
    RefTarget { terms: vec![Some(vec![1]), None, Some(vec![2])] }
}

fn a_view() -> RepoView {
    let mut local_bookmarks = TextMap::new();
    local_bookmarks.insert("main", at(1));
    local_bookmarks.insert("split", conflict());
    let mut local_tags = TextMap::new();
    local_tags.insert("v1", at(3));
    let mut bookmarks = TextMap::new();
    bookmarks.insert("main", RemoteRef { target: at(4), state: RemoteRefState::Followed });
    bookmarks.insert("theirs", RemoteRef { target: at(5), state: RemoteRefState::New });
    let mut remote_views = TextMap::new();
    remote_views.insert("origin", RemoteView { bookmarks, tags: TextMap::new() });
    let mut git_refs = TextMap::new();
    git_refs.insert("refs/heads/main", at(1));
    let mut wc_commit_ids = TextMap::new();
    wc_commit_ids.insert("agent-a", vec![8]);
    RepoView {
        head_ids: vec![vec![1], vec![2]],
        local_bookmarks,
        local_tags,
        remote_views,
        git_refs,
        git_head: at(6),
        wc_commit_ids,
    }
}

fn no_view() -> RepoViewForm {
    RepoViewForm {
        head_ids: vec![],
        wc_commit_id: vec![],
        wc_commit_ids: vec![],
        bookmarks: vec![],
        local_tags: vec![],
        remote_views: vec![],
        git_refs: vec![],
        git_head_legacy: vec![],
        git_head: None,
        has_git_refs_migrated_to_remote_tags: false,
    }
}

#[test]
fn a_view_reads_back() {
    let form = view_to_proto(&a_view());
    assert!(form.has_git_refs_migrated_to_remote_tags);
    assert_eq!(view_from_proto(&form), Ok(a_view()));
}

#[test]
fn bookmarks_are_written_the_older_way_too() {
    let form = view_to_proto(&a_view());
    let names: Vec<&str> = form.bookmarks.iter().map(|b| b.name.as_str()).collect();
    assert_eq!(names, vec!["main", "split", "theirs"]);
    let theirs = &form.bookmarks[2];
    assert_eq!(
        theirs.local_target,
        Some(Some(RefTargetForm::Conflict { removes: vec![], adds: vec![None] }))
    );
    assert_eq!(theirs.remote_bookmarks[0].remote_name, "origin");
    assert_eq!(theirs.remote_bookmarks[0].state, Some(0));
    assert_eq!(form.bookmarks[0].remote_bookmarks[0].state, Some(1));
    assert_eq!(
        form.bookmarks[1].local_target,
        Some(Some(RefTargetForm::Conflict {
            removes: vec![None],
            adds: vec![Some(vec![1]), Some(vec![2])],
        }))
    );
    assert!(form.bookmarks[1].remote_bookmarks.is_empty());
}

#[test]
fn an_older_form_is_read_from_its_bookmarks() {
    let mut form = no_view();
    form.wc_commit_id = vec![7];
    form.wc_commit_ids = vec![("other".to_string(), vec![8])];
    form.git_head_legacy = vec![9];
    form.git_refs =
        vec![GitRefForm { name: "refs/x".to_string(), commit_id: vec![3], target: None }];
    form.bookmarks = vec![BookmarkForm {
        name: "main".to_string(),
        local_target: Some(Some(RefTargetForm::CommitId(vec![1]))),
        remote_bookmarks: vec![RemoteBookmarkForm {
            remote_name: "origin".to_string(),
            target: Some(Some(RefTargetForm::ConflictLegacy {
                removes: vec![vec![1], vec![2]],
                adds: vec![vec![3]],
            })),
            state: None,
        }],
    }];
    let view = view_from_proto(&form).unwrap();
    assert_eq!(view.wc_commit_ids.get("default"), Some(&vec![7]));
    assert_eq!(view.wc_commit_ids.get("other"), Some(&vec![8]));
    assert_eq!(view.git_head, at(9));
    assert_eq!(view.git_refs.get("refs/x"), Some(&at(3)));
    assert_eq!(view.local_bookmarks.get("main"), Some(&at(1)));
    let origin = view.remote_views.get("origin").unwrap();
    let remote = origin.bookmarks.get("main").unwrap();
    assert_eq!(remote.state, RemoteRefState::New);
    assert_eq!(
        remote.target.terms,
        vec![Some(vec![3]), Some(vec![1]), None, Some(vec![2]), None]
    );
}

#[test]
fn remotes_listed_by_themselves_win() {
    let mut form = no_view();
    form.bookmarks = vec![BookmarkForm {
        name: "main".to_string(),
        local_target: None,
        remote_bookmarks: vec![RemoteBookmarkForm {
            remote_name: "old".to_string(),
            target: None,
            state: Some(1),
        }],
    }];
    assert!(view_from_proto(&form).unwrap().remote_views.contains_key("old"));
    form.remote_views = vec![RemoteViewForm {
        name: "new".to_string(),
        bookmarks: vec![RemoteRefForm {
            name: "b".to_string(),
            target_terms: vec![Some(vec![1])],
            state: 1,
        }],
        tags: vec![],
    }];
    let view = view_from_proto(&form).unwrap();
    assert!(!view.remote_views.contains_key("old"));
    assert_eq!(
        view.remote_views.get("new").unwrap().bookmarks.get("b").unwrap().state,
        RemoteRefState::Followed
    );
    // A local bookmark that points nowhere is none.
    assert!(view.local_bookmarks.is_empty());
}

#[test]
fn a_named_default_workspace_wins_over_the_unnamed_one() {
    let mut form = no_view();
    form.wc_commit_id = vec![1];
    form.wc_commit_ids = vec![("default".to_string(), vec![2])];
    assert_eq!(view_from_proto(&form).unwrap().wc_commit_ids.get("default"), Some(&vec![2]));
}

#[test]
fn heads_are_a_set() {
    let mut form = no_view();
    form.head_ids = vec![vec![1], vec![2], vec![1]];
    assert_eq!(view_from_proto(&form).unwrap().head_ids, vec![vec![1], vec![2]]);
}

#[test]
fn what_a_form_says_wrong_is_refused() {
    let mut form = no_view();
    form.remote_views = vec![RemoteViewForm {
        name: "r".to_string(),
        bookmarks: vec![],
        tags: vec![RemoteRefForm {
            name: "t".to_string(),
            target_terms: vec![None, None],
            state: 0,
        }],
    }];
    assert_eq!(
        view_from_proto(&form),
        Err("even number of ref target terms: 2".to_string())
    );
    form.remote_views[0].tags[0].target_terms.pop();
    form.remote_views[0].tags[0].state = -3;
    assert_eq!(view_from_proto(&form), Err("invalid remote ref state: -3".to_string()));
    form.remote_views[0].tags[0].state = 7;
    assert_eq!(view_from_proto(&form), Err("invalid remote ref state: 7".to_string()));
}

#[test]
fn a_form_that_lacks_something_is_malformed() {
    let mut form = no_view();
    form.git_head = Some(None);
    assert_eq!(read_view_form(&form), Err(FormError::Malformed));
    let mut form = no_view();
    form.local_tags = vec![TagForm {
        name: "t".to_string(),
        target: Some(Some(RefTargetForm::Conflict { removes: vec![None], adds: vec![None] })),
    }];
    assert_eq!(read_view_form(&form), Err(FormError::Malformed));
}

#[test]
fn a_written_view_reads_back() {
    let data = write_view(&a_view());
    assert_eq!(read_view(&data), Ok(a_view()));
    let message = simple_op_store::View::decode(data.as_slice()).unwrap();
    assert_eq!(message.head_ids, vec![vec![1], vec![2]]);
    assert_eq!(message.wc_commit_ids.get("agent-a"), Some(&vec![8]));
    let names: Vec<&str> = message.bookmarks.iter().map(|b| b.name.as_str()).collect();
    assert_eq!(names, vec!["main", "split", "theirs"]);
    assert_eq!(message.local_tags.len(), 1);
    assert_eq!(message.git_refs[0].name, "refs/heads/main");
    assert_eq!(message.remote_views[0].bookmarks[0].state, 1);
    assert!(message.has_git_refs_migrated_to_remote_tags);
    assert_eq!(message.encode_to_vec(), data);
}

#[test]
#[allow(deprecated)]
fn an_older_message_is_read() {
    let target = |value| Some(simple_op_store::RefTarget { value: Some(value) });
    let legacy = simple_op_store::RefConflictLegacy {
        removes: vec![vec![1], vec![2]],
        adds: vec![vec![3]],
    };
    let message = simple_op_store::View {
        head_ids: vec![vec![1], vec![1]],
        wc_commit_id: vec![7],
        git_head_legacy: vec![9],
        git_refs: vec![simple_op_store::GitRef {
            name: "refs/x".to_string(),
            commit_id: vec![3],
            target: None,
        }],
        local_tags: vec![simple_op_store::Tag {
            name: "v1".to_string(),
            target: target(simple_op_store::ref_target::Value::CommitId(vec![4])),
        }],
        bookmarks: vec![simple_op_store::Bookmark {
            name: "main".to_string(),
            local_target: target(simple_op_store::ref_target::Value::CommitId(vec![1])),
            remote_bookmarks: vec![simple_op_store::RemoteBookmark {
                remote_name: "origin".to_string(),
                target: target(simple_op_store::ref_target::Value::ConflictLegacy(legacy)),
                state: Some(1),
            }],
        }],
        ..Default::default()
    };
    let view = read_view(&message.encode_to_vec()).unwrap();
    assert_eq!(view.head_ids, vec![vec![1]]);
    assert_eq!(view.wc_commit_ids.get("default"), Some(&vec![7]));
    assert_eq!(view.git_head, at(9));
    assert_eq!(view.git_refs.get("refs/x"), Some(&at(3)));
    assert_eq!(view.local_tags.get("v1"), Some(&at(4)));
    assert_eq!(view.local_bookmarks.get("main"), Some(&at(1)));
    let origin = view.remote_views.get("origin").unwrap();
    assert_eq!(
        origin.bookmarks.get("main"),
        Some(&RemoteRef {
            target: RefTarget {
                terms: vec![Some(vec![3]), Some(vec![1]), None, Some(vec![2]), None],
            },
            state: RemoteRefState::Followed,
        })
    );
}

#[test]
fn bytes_that_are_no_view_are_refused() {
    assert_eq!(read_view(&[0xff]), Err(ViewError::Decode));
    let mut message = simple_op_store::View {
        git_head: Some(simple_op_store::RefTarget { value: None }),
        ..Default::default()
    };
    assert_eq!(
        read_view(&message.encode_to_vec()),
        Err(ViewError::Convert(FormError::Malformed))
    );
    message.git_head = None;
    message.remote_views = vec![simple_op_store::RemoteView {
        name: "origin".to_string(),
        bookmarks: vec![],
        tags: vec![simple_op_store::RemoteRef {
            name: "t".to_string(),
            target_terms: vec![simple_op_store::RefTargetTerm { value: None }],
            state: 9,
        }],
    }];
    assert_eq!(
        read_view(&message.encode_to_vec()),
        Err(ViewError::Convert(FormError::Refused("invalid remote ref state: 9".to_string())))
    );
}
