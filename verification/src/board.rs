//! The request logic of a small message board served over HTTP: validating submitted
//! content, the reply that follows a database write, and the query that lists messages
//! page by page, sorted and filtered. The HTTP server, the database and the HTML template
//! are outside; they hand this module plain values and act on what it returns.
use vstd::prelude::*;
use crate::text::{is_blank, is_blank_seq, parse_u64, parse_unsigned};

verus! {

/// Messages shown on one page.
pub const PAGE_SIZE: usize = 5;

/// Status code of a successful request.
pub const STATUS_OK: u16 = 200;

/// Status code of a request with unusable content.
pub const STATUS_BAD_REQUEST: u16 = 400;

/// Status code of a failed database operation.
pub const STATUS_SERVER_ERROR: u16 = 500;

/// Body of the reply to blank content.
pub const EMPTY_CONTENT_TEXT: &'static str = "Content cannot be empty";

/// Body of the reply to a failed database operation.
pub const DB_ERROR_TEXT: &'static str = "DB error";

/// Body of the reply after all messages were deleted.
pub const ALL_DELETED_TEXT: &'static str = "All messages deleted";

/// Where the browser goes after a form was handled.
pub const MESSAGES_PATH: &'static str = "/messages";

/// Reply of the root path.
pub const GREETING: &'static str = "Hello from Axum!";

/// Statement that stores a new message.
pub const INSERT_MESSAGE_SQL: &'static str = "INSERT INTO messages (content) VALUES (?)";

/// Statement that changes a message's content.
pub const UPDATE_MESSAGE_SQL: &'static str = "UPDATE messages SET content = ? WHERE id = ?";

/// Statement that deletes one message.
pub const DELETE_MESSAGE_SQL: &'static str = "DELETE FROM messages WHERE id = ?";

/// Statement that deletes every message.
pub const DELETE_ALL_SQL: &'static str = "DELETE FROM messages";

/// Statement that creates the table of messages.
pub const CREATE_TABLE_SQL: &'static str =
    "CREATE TABLE IF NOT EXISTS messages (id INTEGER PRIMARY KEY, content TEXT NOT NULL)";

/// What the server answers.
#[derive(Debug)]
pub enum Reply {
    /// A plain-text reply with a status code.
    Text { status: u16, body: String },
    /// A redirect to another path.
    Redirect { location: String },
}

/// The reply to blank content: `400` with a short explanation.
pub open spec fn is_blank_content_reply(r: Reply) -> bool {
    r matches Reply::Text { status, body } && status == STATUS_BAD_REQUEST && body@
        == EMPTY_CONTENT_TEXT@
}

/// The reply to a failed database operation: `500`.
pub open spec fn is_db_error_reply(r: Reply) -> bool {
    r matches Reply::Text { status, body } && status == STATUS_SERVER_ERROR && body@
        == DB_ERROR_TEXT@
}

fn text_reply(status: u16, body: &str) -> (r: Reply)
    ensures
        r matches Reply::Text { status: s, body: b } && s == status && b@ == body@,
{
    Reply::Text { status, body: String::from_str(body) }
}

/// Checks submitted content before it is stored: blank content (empty or white space only)
/// is refused with `400`; other content passes (`None`).
pub fn check_content(content: &str) -> (r: Option<Reply>)
    ensures
        r is Some <==> is_blank_seq(content@),
        r matches Some(reply) ==> is_blank_content_reply(reply),
{
    if is_blank(content) {
        Some(text_reply(STATUS_BAD_REQUEST, EMPTY_CONTENT_TEXT))
    } else {
        None
    }
}

/// The reply of a form handler (adding, editing or deleting one message) once its database
/// write has run: a redirect to the list of messages, or `500` if the write failed.
pub fn redirect_after_write(write_ok: bool) -> (r: Reply)
    ensures
        write_ok ==> (r matches Reply::Redirect { location } && location@ == MESSAGES_PATH@),
        !write_ok ==> is_db_error_reply(r),
{
    if write_ok {
        Reply::Redirect { location: String::from_str(MESSAGES_PATH) }
    } else {
        text_reply(STATUS_SERVER_ERROR, DB_ERROR_TEXT)
    }
}

/// The reply of the JSON creation endpoint once its insert has run: `200` echoing the
/// stored content, or `500` if the insert failed.
pub fn created_reply(write_ok: bool, content: String) -> (r: Reply)
    ensures
        write_ok ==> (r matches Reply::Text { status, body } && status == STATUS_OK && body@
            == content@),
        !write_ok ==> is_db_error_reply(r),
{
    if write_ok {
        Reply::Text { status: STATUS_OK, body: content }
    } else {
        text_reply(STATUS_SERVER_ERROR, DB_ERROR_TEXT)
    }
}

/// The reply of the endpoint that deletes every message once the delete has run: `200`,
/// or `500` if it failed.
pub fn cleared_reply(write_ok: bool) -> (r: Reply)
    ensures
        write_ok ==> (r matches Reply::Text { status, body } && status == STATUS_OK && body@
            == ALL_DELETED_TEXT@),
        !write_ok ==> is_db_error_reply(r),
{
    if write_ok {
        text_reply(STATUS_OK, ALL_DELETED_TEXT)
    } else {
        text_reply(STATUS_SERVER_ERROR, DB_ERROR_TEXT)
    }
}

// ---------------------------------------------------------------------------
// Listing
// ---------------------------------------------------------------------------

/// The parameters of a listing request, with the defaults filled in.
pub struct ListRequest {
    /// The page asked for, counted from 1.
    pub page: usize,
    /// `asc` sorts oldest first; anything else newest first.
    pub sort: String,
    /// Text that listed messages must contain; empty for no filter.
    pub query: String,
}

/// The page that the `page` parameter asks for: its value read as a `usize`, or 1 when it
/// is missing or does not read as one.
pub open spec fn page_of(param: Option<Seq<char>>) -> nat {
    match param {
        Some(p) => match parse_unsigned(p, usize::MAX as nat) {
            Some(v) => v,
            None => 1,
        },
        None => 1,
    }
}

/// The view of an optional string parameter.
pub open spec fn param_view(param: Option<&str>) -> Option<Seq<char>> {
    match param {
        Some(p) => Some(p@),
        None => None,
    }
}

/// Reads a listing request from its query parameters `page`, `sort` and `q`: the page
/// defaults to 1, the order to `desc`, the search text to empty.
pub fn list_request(page: Option<&str>, sort: Option<&str>, q: Option<&str>) -> (r: ListRequest)
    ensures
        r.page == page_of(param_view(page)),
        r.sort@ == match sort {
            Some(s) => s@,
            None => "desc"@,
        },
        r.query@ == match q {
            Some(s) => s@,
            None => Seq::<char>::empty(),
        },
{
    let page_number: usize = match page {
        Some(p) => match parse_u64(p) {
            Some(v) => if v <= usize::MAX as u64 {
                v as usize
            } else {
                1
            },
            None => 1,
        },
        None => 1,
    };
    let sort_text = match sort {
        Some(s) => String::from_str(s),
        None => String::from_str("desc"),
    };
    let query_text = match q {
        Some(s) => String::from_str(s),
        None => String::new(),
    };
    ListRequest { page: page_number, sort: sort_text, query: query_text }
}

/// The database queries that produce one page of the listing.
pub struct ListPlan {
    /// The statement that selects the page's messages.
    pub sql: String,
    /// Its leading arguments: the `LIKE` pattern when a search text is given.
    pub args: Vec<String>,
    /// Its `LIMIT` argument.
    pub limit: usize,
    /// Its `OFFSET` argument: the messages on earlier pages.
    pub offset: usize,
    /// The statement that counts the matching messages.
    pub count_sql: String,
    /// Its argument: the `LIKE` pattern when a search text is given.
    pub count_arg: Option<String>,
}

/// The `LIKE` pattern that matches content containing `query`.
pub open spec fn like_pattern(query: Seq<char>) -> Seq<char> {
    "%"@ + query + "%"@
}

/// Whether the order asked for is ascending: exactly `asc`.
pub open spec fn ascending(sort: Seq<char>) -> bool {
    sort == seq!['a', 's', 'c']
}

/// The statement that selects a page of messages, filtered when `query` is not empty and
/// ordered by id as `sort` asks.
pub open spec fn page_sql(query: Seq<char>, sort: Seq<char>) -> Seq<char> {
    "SELECT id, content FROM messages"@ + (if query.len() > 0 {
        " WHERE content LIKE ?"@
    } else {
        Seq::empty()
    }) + " ORDER BY id "@ + (if ascending(sort) {
        "ASC"@
    } else {
        "DESC"@
    }) + " LIMIT ? OFFSET ?"@
}

/// The statement that counts the messages a listing covers.
pub open spec fn count_sql(query: Seq<char>) -> Seq<char> {
    if query.len() > 0 {
        "SELECT COUNT(*) FROM messages WHERE content LIKE ?"@
    } else {
        "SELECT COUNT(*) FROM messages"@
    }
}

fn is_asc(s: &str) -> (b: bool)
    ensures
        b == ascending(s@),
{
    if s.unicode_len() != 3 {
        proof {
            assert(s@.len() != seq!['a', 's', 'c'].len());
        }
        return false;
    }
    let r = s.get_char(0) == 'a' && s.get_char(1) == 's' && s.get_char(2) == 'c';
    proof {
        if r {
            assert(s@ =~= seq!['a', 's', 'c']);
        }
    }
    r
}

fn like_pattern_exec(query: &str) -> (p: String)
    ensures
        p@ == like_pattern(query@),
{
    let mut p = String::from_str("%");
    p.append(query);
    p.append("%");
    p
}

/// Plans the queries for one page of the listing. The page must be at least 1 and the
/// messages before it must be countable in a `usize`: the offset `(page - 1) * 5` is
/// computed in `usize` and overflows otherwise.
pub fn list_plan(req: &ListRequest) -> (plan: ListPlan)
    requires
        req.page >= 1,
        (req.page - 1) * PAGE_SIZE <= usize::MAX,
    ensures
        plan.sql@ == page_sql(req.query@, req.sort@),
        req.query@.len() > 0 ==> plan.args@.len() == 1 && plan.args@[0]@ == like_pattern(
            req.query@,
        ),
        req.query@.len() == 0 ==> plan.args@.len() == 0,
        plan.limit == PAGE_SIZE,
        plan.offset == (req.page - 1) * PAGE_SIZE,
        plan.count_sql@ == count_sql(req.query@),
        req.query@.len() > 0 ==> (plan.count_arg matches Some(a) && a@ == like_pattern(
            req.query@,
        )),
        req.query@.len() == 0 ==> plan.count_arg is None,
{
    let searching = req.query.as_str().unicode_len() > 0;
    let mut sql = String::from_str("SELECT id, content FROM messages");
    let mut args: Vec<String> = Vec::new();
    if searching {
        sql.append(" WHERE content LIKE ?");
        args.push(like_pattern_exec(req.query.as_str()));
    }
    sql.append(" ORDER BY id ");
    if is_asc(req.sort.as_str()) {
        sql.append("ASC");
    } else {
        sql.append("DESC");
    }
    sql.append(" LIMIT ? OFFSET ?");
    let (count_text, count_arg) = if searching {
        (
            String::from_str("SELECT COUNT(*) FROM messages WHERE content LIKE ?"),
            Some(like_pattern_exec(req.query.as_str())),
        )
    } else {
        (String::from_str("SELECT COUNT(*) FROM messages"), None)
    };
    proof {
        assert(sql@ =~= page_sql(req.query@, req.sort@));
    }
    ListPlan {
        sql,
        args,
        limit: PAGE_SIZE,
        offset: (req.page - 1) * PAGE_SIZE,
        count_sql: count_text,
        count_arg,
    }
}

/// The listing's order follows the `sort` parameter alone: whatever the search text, the
/// page statement ends in `ORDER BY id ASC LIMIT ? OFFSET ?` exactly when `sort` is `asc`,
/// and in `ORDER BY id DESC LIMIT ? OFFSET ?` otherwise; and it starts by selecting from the
/// messages, filtered with `LIKE` exactly when there is a search text.
pub proof fn law_order_follows_sort_only(query: Seq<char>, sort: Seq<char>)
    ensures
        ascending(sort) ==> exists|head: Seq<char>|
            page_sql(query, sort) == head + " ORDER BY id ASC LIMIT ? OFFSET ?"@,
        !ascending(sort) ==> exists|head: Seq<char>|
            page_sql(query, sort) == head + " ORDER BY id DESC LIMIT ? OFFSET ?"@,
        query.len() > 0 ==> exists|tail: Seq<char>|
            page_sql(query, sort) == "SELECT id, content FROM messages WHERE content LIKE ?"@
                + tail,
        query.len() == 0 ==> exists|tail: Seq<char>|
            page_sql(query, sort) == "SELECT id, content FROM messages ORDER BY id "@ + tail,
{
    reveal_strlit("SELECT id, content FROM messages");
    reveal_strlit(" WHERE content LIKE ?");
    reveal_strlit(" ORDER BY id ");
    reveal_strlit("ASC");
    reveal_strlit("DESC");
    reveal_strlit(" LIMIT ? OFFSET ?");
    reveal_strlit(" ORDER BY id ASC LIMIT ? OFFSET ?");
    reveal_strlit(" ORDER BY id DESC LIMIT ? OFFSET ?");
    reveal_strlit("SELECT id, content FROM messages WHERE content LIKE ?");
    reveal_strlit("SELECT id, content FROM messages ORDER BY id ");
    let head = "SELECT id, content FROM messages"@ + (if query.len() > 0 {
        " WHERE content LIKE ?"@
    } else {
        Seq::empty()
    });
    let dir = if ascending(sort) {
        "ASC"@
    } else {
        "DESC"@
    };
    let rest = " ORDER BY id "@ + dir + " LIMIT ? OFFSET ?"@;
    assert(page_sql(query, sort) =~= head + rest);
    if ascending(sort) {
        assert(rest =~= " ORDER BY id ASC LIMIT ? OFFSET ?"@);
        assert(page_sql(query, sort) == head + " ORDER BY id ASC LIMIT ? OFFSET ?"@);
    } else {
        assert(rest =~= " ORDER BY id DESC LIMIT ? OFFSET ?"@);
        assert(page_sql(query, sort) == head + " ORDER BY id DESC LIMIT ? OFFSET ?"@);
    }
    if query.len() > 0 {
        assert(head =~= "SELECT id, content FROM messages WHERE content LIKE ?"@);
        assert(page_sql(query, sort) == "SELECT id, content FROM messages WHERE content LIKE ?"@
            + rest);
    } else {
        let tail = dir + " LIMIT ? OFFSET ?"@;
        assert(page_sql(query, sort) =~= "SELECT id, content FROM messages ORDER BY id "@ + tail);
    }
}

} // verus!
