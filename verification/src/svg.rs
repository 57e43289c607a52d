//! Text helpers for the SVG renderer: escaping and the icon set.
use vstd::prelude::*;
use vstd::string::*;
use crate::text::{chars_of, push_char};

verus! {

/// Storage: a database cylinder.
pub const ICON_STORAGE: &'static str = r#"<svg xmlns="http://www.w3.org/2000/svg" width="32" height="32" viewBox="0 0 24 24" fill="none" stroke="currentColor" stroke-width="2" stroke-linecap="round" stroke-linejoin="round"><ellipse cx="12" cy="5" rx="9" ry="3"/><path d="M3 5V19A9 3 0 0 0 21 19V5"/><path d="M3 12A9 3 0 0 0 21 12"/></svg>"#;

/// Code: angle brackets.
pub const ICON_CODE: &'static str = r#"<svg xmlns="http://www.w3.org/2000/svg" width="32" height="32" viewBox="0 0 24 24" fill="none" stroke="currentColor" stroke-width="2" stroke-linecap="round" stroke-linejoin="round"><polyline points="16 18 22 12 16 6"/><polyline points="8 6 2 12 8 18"/></svg>"#;

/// Networks: a cloud.
pub const ICON_CLOUD: &'static str = r#"<svg xmlns="http://www.w3.org/2000/svg" width="32" height="32" viewBox="0 0 24 24" fill="none" stroke="currentColor" stroke-width="2" stroke-linecap="round" stroke-linejoin="round"><path d="M17.5 19A5.5 5.5 0 0 0 18 8h-1.26a8 8 0 1 0-11.62 9"/></svg>"#;

/// Servers: two stacked racks.
pub const ICON_SERVER: &'static str = r#"<svg xmlns="http://www.w3.org/2000/svg" width="32" height="32" viewBox="0 0 24 24" fill="none" stroke="currentColor" stroke-width="2" stroke-linecap="round" stroke-linejoin="round"><rect width="20" height="8" x="2" y="2" rx="2" ry="2"/><rect width="20" height="8" x="2" y="14" rx="2" ry="2"/><line x1="6" x2="6.01" y1="6" y2="6"/><line x1="6" x2="6.01" y1="18" y2="18"/></svg>"#;

/// People: a head and shoulders.
pub const ICON_USER: &'static str = r#"<svg xmlns="http://www.w3.org/2000/svg" width="32" height="32" viewBox="0 0 24 24" fill="none" stroke="currentColor" stroke-width="2" stroke-linecap="round" stroke-linejoin="round"><path d="M19 21v-2a4 4 0 0 0-4-4H9a4 4 0 0 0-4 4v2"/><circle cx="12" cy="7" r="4"/></svg>"#;

/// Models: a brain.
pub const ICON_BRAIN: &'static str = r#"<svg xmlns="http://www.w3.org/2000/svg" width="32" height="32" viewBox="0 0 24 24" fill="none" stroke="currentColor" stroke-width="2" stroke-linecap="round" stroke-linejoin="round"><path d="M12 5a3 3 0 1 0-5.997.125 4 4 0 0 0-2.526 5.77 4 4 0 0 0 .556 6.588A4 4 0 1 0 12 18Z"/><path d="M12 5a3 3 0 1 1 5.997.125 4 4 0 0 1 2.526 5.77 4 4 0 0 1-.556 6.588A4 4 0 1 1 12 18Z"/><path d="M15 13a4.5 4.5 0 0 1-3-4 4.5 4.5 0 0 1-3 4"/><path d="M17.599 6.5a3 3 0 0 0 .399-1.375"/></svg>"#;

/// Messaging: a speech bubble.
pub const ICON_MESSAGE: &'static str = r#"<svg xmlns="http://www.w3.org/2000/svg" width="32" height="32" viewBox="0 0 24 24" fill="none" stroke="currentColor" stroke-width="2" stroke-linecap="round" stroke-linejoin="round"><path d="M21 15a2 2 0 0 1-2 2H7l-4 4V5a2 2 0 0 1 2-2h14a2 2 0 0 1 2 2z"/></svg>"#;

/// Anything else: a rounded square.
pub const ICON_DEFAULT: &'static str = r#"<svg xmlns="http://www.w3.org/2000/svg" width="32" height="32" viewBox="0 0 24 24" fill="none" stroke="currentColor" stroke-width="2" stroke-linecap="round" stroke-linejoin="round"><rect width="18" height="18" x="3" y="3" rx="2" ry="2"/></svg>"#;

/// The SVG text that stands for a character inside XML text or attributes.
pub open spec fn escape_char(c: char) -> Seq<char> {
    if c == '&' {
        seq!['&', 'a', 'm', 'p', ';']
    } else if c == '<' {
        seq!['&', 'l', 't', ';']
    } else if c == '>' {
        seq!['&', 'g', 't', ';']
    } else if c == '"' {
        seq!['&', 'q', 'u', 'o', 't', ';']
    } else if c == '\'' {
        seq!['&', '#', '3', '9', ';']
    } else {
        seq![c]
    }
}

/// Every character of `s` escaped, in order.
pub open spec fn escape_spec(s: Seq<char>) -> Seq<char>
    decreases s.len(),
{
    if s.len() == 0 {
        Seq::empty()
    } else {
        escape_spec(s.drop_last()) + escape_char(s.last())
    }
}

fn push_str_chars(out: &mut String, cs: &[char])
    ensures
        final(out)@ == old(out)@ + cs@,
{
    let n = cs.len();
    for i in 0..n
        invariant
            n == cs@.len(),
            out@ == old(out)@ + cs@.take(i as int),
    {
        push_char(out, cs[i]);
        assert(cs@.take(i + 1) =~= cs@.take(i as int).push(cs@[i as int]));
    }
    assert(cs@.take(n as int) =~= cs@);
}

/// Escapes text for safe inclusion in SVG XML: `&`, `<`, `>`, `"` and `'`
/// become character references; every other character stays.
pub fn xml_escape(s: &str) -> (out: String)
    ensures
        out@ == escape_spec(s@),
{
    let cs = chars_of(s);
    let mut out = String::new();
    let n = cs.len();
    for i in 0..n
        invariant
            n == cs@.len(),
            cs@ == s@,
            out@ == escape_spec(s@.take(i as int)),
    {
        let c = cs[i];
        if c == '&' {
            push_str_chars(&mut out, &['&', 'a', 'm', 'p', ';']);
        } else if c == '<' {
            push_str_chars(&mut out, &['&', 'l', 't', ';']);
        } else if c == '>' {
            push_str_chars(&mut out, &['&', 'g', 't', ';']);
        } else if c == '"' {
            push_str_chars(&mut out, &['&', 'q', 'u', 'o', 't', ';']);
        } else if c == '\'' {
            push_str_chars(&mut out, &['&', '#', '3', '9', ';']);
        } else {
            push_char(&mut out, c);
        }
        let ghost next = s@.take(i + 1);
        assert(next.drop_last() =~= s@.take(i as int));
        assert(next.last() == c);
        assert(out@ =~= escape_spec(next));
    }
    assert(s@.take(n as int) =~= s@);
    out
}

/// The icon for each name: `s3`, `database`, `bucket` and `storage` show
/// the storage icon; `lambda`, `function`, `code` and `compute` the code
/// icon; `cloud`, `cloudfront`, `cdn` and `network` the cloud; `server`,
/// `ec2` and `instance` the server racks; `user`, `client` and `person` the
/// person; `model`, `brain`, `ai` and `llm` the brain; `message`, `queue`,
/// `sns`, `sqs` and `event` the speech bubble. Every other name shows the
/// rounded square.
pub proof fn law_icon_table(name: Seq<char>)
    ensures
        icon_spec("s3"@) == ICON_STORAGE@,
        icon_spec("database"@) == ICON_STORAGE@,
        icon_spec("bucket"@) == ICON_STORAGE@,
        icon_spec("storage"@) == ICON_STORAGE@,
        icon_spec("lambda"@) == ICON_CODE@,
        icon_spec("function"@) == ICON_CODE@,
        icon_spec("code"@) == ICON_CODE@,
        icon_spec("compute"@) == ICON_CODE@,
        icon_spec("cloud"@) == ICON_CLOUD@,
        icon_spec("cloudfront"@) == ICON_CLOUD@,
        icon_spec("cdn"@) == ICON_CLOUD@,
        icon_spec("network"@) == ICON_CLOUD@,
        icon_spec("server"@) == ICON_SERVER@,
        icon_spec("ec2"@) == ICON_SERVER@,
        icon_spec("instance"@) == ICON_SERVER@,
        icon_spec("user"@) == ICON_USER@,
        icon_spec("client"@) == ICON_USER@,
        icon_spec("person"@) == ICON_USER@,
        icon_spec("model"@) == ICON_BRAIN@,
        icon_spec("brain"@) == ICON_BRAIN@,
        icon_spec("ai"@) == ICON_BRAIN@,
        icon_spec("llm"@) == ICON_BRAIN@,
        icon_spec("message"@) == ICON_MESSAGE@,
        icon_spec("queue"@) == ICON_MESSAGE@,
        icon_spec("sns"@) == ICON_MESSAGE@,
        icon_spec("sqs"@) == ICON_MESSAGE@,
        icon_spec("event"@) == ICON_MESSAGE@,
        name != "s3"@ && name != "database"@ && name != "bucket"@ && name != "storage"@ && name != "lambda"@ && name != "function"@ && name != "code"@ && name != "compute"@ && name != "cloud"@ && name != "cloudfront"@ && name != "cdn"@ && name != "network"@ && name != "server"@ && name != "ec2"@ && name != "instance"@ && name != "user"@ && name != "client"@ && name != "person"@ && name != "model"@ && name != "brain"@ && name != "ai"@ && name != "llm"@ && name != "message"@ && name != "queue"@ && name != "sns"@ && name != "sqs"@ && name != "event"@ ==> icon_spec(name) == ICON_DEFAULT@,
{
    reveal_strlit("s3");
    reveal_strlit("database");
    reveal_strlit("bucket");
    reveal_strlit("storage");
    reveal_strlit("lambda");
    reveal_strlit("function");
    reveal_strlit("code");
    reveal_strlit("compute");
    reveal_strlit("cloud");
    reveal_strlit("cloudfront");
    reveal_strlit("cdn");
    reveal_strlit("network");
    reveal_strlit("server");
    reveal_strlit("ec2");
    reveal_strlit("instance");
    reveal_strlit("user");
    reveal_strlit("client");
    reveal_strlit("person");
    reveal_strlit("model");
    reveal_strlit("brain");
    reveal_strlit("ai");
    reveal_strlit("llm");
    reveal_strlit("message");
    reveal_strlit("queue");
    reveal_strlit("sns");
    reveal_strlit("sqs");
    reveal_strlit("event");
    assert("s3"@.len() == 2);
    assert("database"@.len() == 8);
    assert("bucket"@.len() == 6);
    assert("storage"@.len() == 7);
    assert("lambda"@.len() == 6);
    assert("function"@.len() == 8);
    assert("code"@.len() == 4);
    assert("compute"@.len() == 7);
    assert("cloud"@.len() == 5);
    assert("cloudfront"@.len() == 10);
    assert("cdn"@.len() == 3);
    assert("network"@.len() == 7);
    assert("server"@.len() == 6);
    assert("ec2"@.len() == 3);
    assert("instance"@.len() == 8);
    assert("user"@.len() == 4);
    assert("client"@.len() == 6);
    assert("person"@.len() == 6);
    assert("model"@.len() == 5);
    assert("brain"@.len() == 5);
    assert("ai"@.len() == 2);
    assert("llm"@.len() == 3);
    assert("message"@.len() == 7);
    assert("queue"@.len() == 5);
    assert("sns"@.len() == 3);
    assert("sqs"@.len() == 3);
    assert("event"@.len() == 5);
    assert("lambda"@[0] != "bucket"@[0]);
    assert("function"@[0] != "database"@[0]);
    assert("compute"@[0] != "storage"@[0]);
    assert("network"@[0] != "storage"@[0]);
    assert("network"@[0] != "compute"@[0]);
    assert("server"@[0] != "bucket"@[0]);
    assert("server"@[0] != "lambda"@[0]);
    assert("ec2"@[0] != "cdn"@[0]);
    assert("instance"@[0] != "database"@[0]);
    assert("instance"@[0] != "function"@[0]);
    assert("user"@[0] != "code"@[0]);
    assert("client"@[0] != "bucket"@[0]);
    assert("client"@[0] != "lambda"@[0]);
    assert("client"@[0] != "server"@[0]);
    assert("person"@[0] != "bucket"@[0]);
    assert("person"@[0] != "lambda"@[0]);
    assert("person"@[0] != "server"@[0]);
    assert("model"@[0] != "cloud"@[0]);
    assert("brain"@[0] != "cloud"@[0]);
    assert("ai"@[0] != "s3"@[0]);
    assert("llm"@[0] != "cdn"@[0]);
    assert("llm"@[0] != "ec2"@[0]);
    assert("message"@[0] != "storage"@[0]);
    assert("message"@[0] != "compute"@[0]);
    assert("message"@[0] != "network"@[0]);
    assert("queue"@[0] != "cloud"@[0]);
    assert("queue"@[0] != "model"@[0]);
    assert("queue"@[0] != "brain"@[0]);
    assert("sns"@[0] != "cdn"@[0]);
    assert("sns"@[0] != "ec2"@[0]);
    assert("sns"@[0] != "llm"@[0]);
    assert("sqs"@[0] != "cdn"@[0]);
    assert("sqs"@[0] != "ec2"@[0]);
    assert("sqs"@[0] != "llm"@[0]);
    assert("event"@[0] != "cloud"@[0]);
    assert("event"@[0] != "model"@[0]);
    assert("event"@[0] != "brain"@[0]);
}

/// A character that can open or close markup or end an attribute value.
pub open spec fn is_markup(c: char) -> bool {
    c == '<' || c == '>' || c == '"' || c == '\''
}

/// Escaped text holds no character that could open or close markup or end
/// an attribute value.
pub proof fn law_escaped_text_is_inert(s: Seq<char>)
    ensures
        forall|j: int| 0 <= j < escape_spec(s).len() ==> !is_markup(#[trigger] escape_spec(s)[j]),
    decreases s.len(),
{
    if s.len() > 0 {
        law_escaped_text_is_inert(s.drop_last());
        let pre = escape_spec(s.drop_last());
        let tail = escape_char(s.last());
        assert forall|j: int| 0 <= j < escape_spec(s).len() implies !is_markup(#[trigger] escape_spec(s)[j]) by {
            if j < pre.len() {
                assert(escape_spec(s)[j] == pre[j]);
            } else {
                assert(escape_spec(s)[j] == tail[j - pre.len()]);
            }
        }
    }
}

/// Whether two strings hold the same characters.
pub fn str_eq(a: &str, b: &str) -> (r: bool)
    ensures
        r == (a@ == b@),
{
    let x = chars_of(a);
    let y = chars_of(b);
    if x.len() != y.len() {
        return false;
    }
    let n = x.len();
    for i in 0..n
        invariant
            n == x@.len() == y@.len(),
            x@ == a@,
            y@ == b@,
            forall|j: int| 0 <= j < i ==> x@[j] == y@[j],
    {
        if x[i] != y[i] {
            assert(x@[i as int] != y@[i as int]);
            return false;
        }
    }
    assert(x@ =~= y@);
    true
}

/// The icon drawn for an icon name; unknown names get a plain square.
pub open spec fn icon_spec(name: Seq<char>) -> Seq<char> {
    if name == "s3"@ || name == "database"@ || name == "bucket"@ || name == "storage"@ {
        ICON_STORAGE@
    }     else if name == "lambda"@ || name == "function"@ || name == "code"@ || name == "compute"@ {
        ICON_CODE@
    }     else if name == "cloud"@ || name == "cloudfront"@ || name == "cdn"@ || name == "network"@ {
        ICON_CLOUD@
    }     else if name == "server"@ || name == "ec2"@ || name == "instance"@ {
        ICON_SERVER@
    }     else if name == "user"@ || name == "client"@ || name == "person"@ {
        ICON_USER@
    }     else if name == "model"@ || name == "brain"@ || name == "ai"@ || name == "llm"@ {
        ICON_BRAIN@
    }     else if name == "message"@ || name == "queue"@ || name == "sns"@ || name == "sqs"@ || name == "event"@ {
        ICON_MESSAGE@
    } else {
        ICON_DEFAULT@
    }
}

/// The SVG markup of the icon with the given name.
pub fn get_icon_svg(name: &str) -> (r: &'static str)
    ensures
        r@ == icon_spec(name@),
{
    if str_eq(name, "s3") || str_eq(name, "database") || str_eq(name, "bucket") || str_eq(name, "storage") {
        ICON_STORAGE
    }     else if str_eq(name, "lambda") || str_eq(name, "function") || str_eq(name, "code") || str_eq(name, "compute") {
        ICON_CODE
    }     else if str_eq(name, "cloud") || str_eq(name, "cloudfront") || str_eq(name, "cdn") || str_eq(name, "network") {
        ICON_CLOUD
    }     else if str_eq(name, "server") || str_eq(name, "ec2") || str_eq(name, "instance") {
        ICON_SERVER
    }     else if str_eq(name, "user") || str_eq(name, "client") || str_eq(name, "person") {
        ICON_USER
    }     else if str_eq(name, "model") || str_eq(name, "brain") || str_eq(name, "ai") || str_eq(name, "llm") {
        ICON_BRAIN
    }     else if str_eq(name, "message") || str_eq(name, "queue") || str_eq(name, "sns") || str_eq(name, "sqs") || str_eq(name, "event") {
        ICON_MESSAGE
    } else {
        ICON_DEFAULT
    }
}

/// The markup that shows a node's icon above its label, in the node's text
/// colour; nothing for a node without an icon.
pub open spec fn icon_markup_spec(icon: Option<Seq<char>>, font_color: Seq<char>) -> Seq<char> {
    match icon {
        Some(name) => "<div style='margin-bottom: 8px; color: "@ + font_color + ";'>"@ + icon_spec(name)
            + "</div>"@,
        None => Seq::empty(),
    }
}

/// The markup that shows a node's icon above its label.
pub fn icon_markup(icon: &Option<String>, font_color: &str) -> (r: String)
    ensures
        r@ == icon_markup_spec(crate::graph::opt_view(*icon), font_color@),
{
    match icon {
        Some(name) => {
            let mut r = String::from_str("<div style='margin-bottom: 8px; color: ");
            r.append(font_color);
            r.append(";'>");
            r.append(get_icon_svg(name.as_str()));
            r.append("</div>");
            r
        },
        None => String::new(),
    }
}

} // verus!
