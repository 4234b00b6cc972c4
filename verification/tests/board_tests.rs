use practice_apps::board::{
    check_content, cleared_reply, created_reply, list_plan, list_request, redirect_after_write,
    Reply, ListRequest, PAGE_SIZE,
};

fn text(r: &Reply) -> (u16, String) {
    match r {
        Reply::Text { status, body } => (*status, body.clone()),
        Reply::Redirect { location } => (0, location.clone()),
    }
}

#[test]
fn blank_content_is_refused() {
    assert_eq!(text(&check_content("").unwrap()), (400, "Content cannot be empty".to_string()));
    assert_eq!(text(&check_content("  \n\t").unwrap()), (400, "Content cannot be empty".to_string()));
    assert!(check_content(" hi ").is_none());
}

#[test]
fn replies_after_writes() {
    match redirect_after_write(true) {
        Reply::Redirect { location } => assert_eq!(location, "/messages"),
        other => panic!("unexpected {:?}", other),
    }
    assert_eq!(text(&redirect_after_write(false)), (500, "DB error".to_string()));
    assert_eq!(text(&created_reply(true, "hello".to_string())), (200, "hello".to_string()));
    assert_eq!(text(&created_reply(false, "hello".to_string())), (500, "DB error".to_string()));
    assert_eq!(text(&cleared_reply(true)), (200, "All messages deleted".to_string()));
    assert_eq!(text(&cleared_reply(false)), (500, "DB error".to_string()));
}

#[test]
fn list_request_defaults() {
    let r = list_request(None, None, None);
    assert_eq!((r.page, r.sort.as_str(), r.query.as_str()), (1, "desc", ""));
    let r = list_request(Some("3"), Some("asc"), Some("kot"));
    assert_eq!((r.page, r.sort.as_str(), r.query.as_str()), (3, "asc", "kot"));
    let r = list_request(Some("x"), None, None);
    assert_eq!(r.page, 1);
    let r = list_request(Some(" 2"), None, None);
    assert_eq!(r.page, 1);
    let r = list_request(Some("0"), None, None);
    assert_eq!(r.page, 0);
}

#[test]
fn plan_without_search() {
    let plan = list_plan(&ListRequest { page: 1, sort: "desc".to_string(), query: String::new() });
    assert_eq!(plan.sql, "SELECT id, content FROM messages ORDER BY id DESC LIMIT ? OFFSET ?");
    assert!(plan.args.is_empty());
    assert_eq!((plan.limit, plan.offset), (5, 0));
    assert_eq!(plan.count_sql, "SELECT COUNT(*) FROM messages");
    assert_eq!(plan.count_arg, None);
}

#[test]
fn plan_with_search_and_ascending_order() {
    let plan = list_plan(&ListRequest { page: 3, sort: "asc".to_string(), query: "kot".to_string() });
    assert_eq!(plan.sql, "SELECT id, content FROM messages WHERE content LIKE ? ORDER BY id ASC LIMIT ? OFFSET ?");
    assert_eq!(plan.args, vec!["%kot%".to_string()]);
    assert_eq!((plan.limit, plan.offset), (PAGE_SIZE, 10));
    assert_eq!(plan.count_sql, "SELECT COUNT(*) FROM messages WHERE content LIKE ?");
    assert_eq!(plan.count_arg, Some("%kot%".to_string()));
}

#[test]
fn any_sort_but_asc_is_descending() {
    for sort in ["ASC", "desc", "", "asc "].iter() {
        let plan = list_plan(&ListRequest { page: 2, sort: sort.to_string(), query: String::new() });
        assert!(plan.sql.contains("ORDER BY id DESC"), "sort {:?}", sort);
    }
}
