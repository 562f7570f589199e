//! Notifications from programs running in panes: the command line of the
//! `notify` subcommand, the message it sends, and the event a received
//! message becomes.
use vstd::prelude::*;
use vstd::string::StringExecFns;

use crate::event::AppEvent;
use crate::text::{chars_eq_str, parse_u64, spec_parse_unsigned, str_to_chars};

verus! {

/// What the `notify` subcommand sends: a title, a body, and the window
/// (counting from 1) and pane it comes from.
pub struct NotifyArgs {
    pub title: String,
    pub body: String,
    pub window: Option<usize>,
    pub pane: Option<u32>,
}

/// The arguments with the texts as sequences.
pub struct NotifyView {
    pub title: Seq<char>,
    pub body: Seq<char>,
    pub window: Option<usize>,
    pub pane: Option<u32>,
}

impl View for NotifyArgs {
    type V = NotifyView;

    open spec fn view(&self) -> NotifyView {
        NotifyView { title: self.title@, body: self.body@, window: self.window, pane: self.pane }
    }
}

/// `str::parse::<usize>()`, as an option.
pub open spec fn parse_usize_opt(s: Seq<char>) -> Option<usize> {
    match spec_parse_unsigned(s) {
        Some(v) => if v <= usize::MAX { Some(v as usize) } else { None },
        None => None,
    }
}

/// `str::parse::<u32>()`, as an option.
pub open spec fn parse_u32_opt(s: Seq<char>) -> Option<u32> {
    match spec_parse_unsigned(s) {
        Some(v) => if v <= u32::MAX { Some(v as u32) } else { None },
        None => None,
    }
}

/// The options read from `args` from position `i` on, over `acc`: each of
/// `--title`, `--body`, `--window` and `--pane` takes the next argument as
/// its value (a later one overriding an earlier one, a window or pane that
/// is not a number giving none); an option without a value, and any other
/// argument, is skipped.
pub open spec fn read_notify_args(args: Seq<Seq<char>>, i: int, acc: NotifyView) -> NotifyView
    decreases args.len() - i,
{
    if i < 0 || i >= args.len() {
        acc
    } else if args[i] == "--title"@ {
        if i + 1 < args.len() {
            read_notify_args(args, i + 2, NotifyView { title: args[i + 1], ..acc })
        } else {
            read_notify_args(args, i + 1, acc)
        }
    } else if args[i] == "--body"@ {
        if i + 1 < args.len() {
            read_notify_args(args, i + 2, NotifyView { body: args[i + 1], ..acc })
        } else {
            read_notify_args(args, i + 1, acc)
        }
    } else if args[i] == "--window"@ {
        if i + 1 < args.len() {
            read_notify_args(args, i + 2, NotifyView { window: parse_usize_opt(args[i + 1]), ..acc })
        } else {
            read_notify_args(args, i + 1, acc)
        }
    } else if args[i] == "--pane"@ {
        if i + 1 < args.len() {
            read_notify_args(args, i + 2, NotifyView { pane: parse_u32_opt(args[i + 1]), ..acc })
        } else {
            read_notify_args(args, i + 1, acc)
        }
    } else {
        read_notify_args(args, i + 1, acc)
    }
}

/// The arguments as sequences.
pub open spec fn arg_views(args: Seq<String>) -> Seq<Seq<char>> {
    args.map_values(|a: String| a@)
}

fn parse_usize_str(s: &String) -> (r: Option<usize>)
    ensures
        r == parse_usize_opt(s@),
{
    let cs = str_to_chars(s.as_str());
    match parse_u64(&cs) {
        Some(v) => if v <= usize::MAX as u64 { Some(v as usize) } else { None },
        None => None,
    }
}

fn parse_u32_str(s: &String) -> (r: Option<u32>)
    ensures
        r == parse_u32_opt(s@),
{
    let cs = str_to_chars(s.as_str());
    match parse_u64(&cs) {
        Some(v) => if v <= u32::MAX as u64 { Some(v as u32) } else { None },
        None => None,
    }
}

/// Reads the options of the `notify` subcommand (see `read_notify_args`),
/// starting from an empty title and body and no window or pane.
pub fn parse_notify_args(args: &Vec<String>) -> (r: NotifyArgs)
    ensures
        r@ == read_notify_args(
            arg_views(args@),
            0,
            NotifyView { title: Seq::empty(), body: Seq::empty(), window: None, pane: None },
        ),
{
    let ghost av = arg_views(args@);
    let mut out = NotifyArgs { title: String::new(), body: String::new(), window: None, pane: None };
    let ghost target = read_notify_args(av, 0, out@);
    let mut i: usize = 0;
    while i < args.len()
        invariant
            av == arg_views(args@),
            target == read_notify_args(av, i as int, out@),
            i <= args@.len() + 1,
        decreases args.len() - i,
    {
        let a = &args[i];
        let has_value = i + 1 < args.len();
        if chars_eq_str(&str_to_chars(a.as_str()), "--title") {
            if has_value {
                out.title = args[i + 1].clone();
                i = i + 2;
            } else {
                i = i + 1;
            }
        } else if chars_eq_str(&str_to_chars(a.as_str()), "--body") {
            if has_value {
                out.body = args[i + 1].clone();
                i = i + 2;
            } else {
                i = i + 1;
            }
        } else if chars_eq_str(&str_to_chars(a.as_str()), "--window") {
            if has_value {
                out.window = parse_usize_str(&args[i + 1]);
                i = i + 2;
            } else {
                i = i + 1;
            }
        } else if chars_eq_str(&str_to_chars(a.as_str()), "--pane") {
            if has_value {
                out.pane = parse_u32_str(&args[i + 1]);
                i = i + 2;
            } else {
                i = i + 1;
            }
        } else {
            i = i + 1;
        }
    }
    out
}

/// Fills in the window and pane from the values that the environment gives
/// the shell of a pane (`XMUX_WINDOW`, `XMUX_PANE`) when the options did not
/// give them; `None` (nothing is sent) when the window is still unknown,
/// that is when the command does not run inside the multiplexer.
pub fn notify_target(args: NotifyArgs, env_window: Option<String>, env_pane: Option<String>) -> (r: Option<NotifyArgs>)
    ensures
        ({
            let window = match args.window {
                Some(w) => Some(w),
                None => match env_window {
                    Some(e) => parse_usize_opt(e@),
                    None => None,
                },
            };
            let pane = match args.pane {
                Some(p) => Some(p),
                None => match env_pane {
                    Some(e) => parse_u32_opt(e@),
                    None => None,
                },
            };
            match window {
                None => r is None,
                Some(_) => r matches Some(a) && a@ == (NotifyView { window, pane, ..args@ }),
            }
        }),
{
    let mut args = args;
    if args.window.is_none() {
        args.window = match &env_window {
            Some(e) => parse_usize_str(e),
            None => None,
        };
    }
    if args.pane.is_none() {
        args.pane = match &env_pane {
            Some(e) => parse_u32_str(e),
            None => None,
        };
    }
    if args.window.is_none() {
        return None;
    }
    Some(args)
}

/// The JSON object that `serde_json` writes for a map holding `title` and
/// `body` as strings and then, inserted in turn, each (key, number) of
/// `numbers`.
pub uninterp spec fn json_notification(title: Seq<char>, body: Seq<char>, numbers: Seq<(Seq<char>, u64)>) -> Seq<char>;

/// The number members of a notification: `window`, then `pane`, each only
/// when it is given.
pub open spec fn spec_number_members(window: Option<usize>, pane: Option<u32>) -> Seq<(Seq<char>, u64)> {
    (match window {
        Some(w) => seq![("window"@, w as u64)],
        None => Seq::empty(),
    }) + (match pane {
        Some(p) => seq![("pane"@, p as u64)],
        None => Seq::empty(),
    })
}

/// The members as (key, number) pairs of plain values.
pub open spec fn member_views(numbers: Seq<(String, u64)>) -> Seq<(Seq<char>, u64)> {
    numbers.map_values(|m: (String, u64)| (m.0@, m.1))
}

/// The number members of a notification (see `spec_number_members`).
pub fn number_members(window: Option<usize>, pane: Option<u32>) -> (r: Vec<(String, u64)>)
    ensures
        member_views(r@) == spec_number_members(window, pane),
{
    let mut v: Vec<(String, u64)> = Vec::new();
    if let Some(w) = window {
        v.push((String::from_str("window"), w as u64));
    }
    if let Some(p) = pane {
        v.push((String::from_str("pane"), p as u64));
    }
    proof {
        assert(member_views(v@) =~= spec_number_members(window, pane));
    }
    v
}

/// Builds a `serde_json::Value` object holding `title` and `body` as
/// strings and each pair of `numbers` as a number, then writes it with
/// `Value::to_string`; the text (key order, escaping) is `serde_json`'s and
/// is not spelled out here.
#[verifier::external_body]
fn notification_json(title: &str, body: &str, numbers: &Vec<(String, u64)>) -> (r: String)
    ensures
        r@ == json_notification(title@, body@, member_views(numbers@)),
{
    let mut m = serde_json::Map::new();
    m.insert("title".to_string(), serde_json::Value::from(title));
    m.insert("body".to_string(), serde_json::Value::from(body));
    for (k, n) in numbers {
        m.insert(k.clone(), serde_json::Value::from(*n));
    }
    serde_json::Value::Object(m).to_string()
}

/// The line sent to the running multiplexer: the notification as a JSON
/// object, then a newline.
pub fn notification_line(args: &NotifyArgs) -> (r: String)
    ensures
        r@ == json_notification(args.title@, args.body@, spec_number_members(args.window, args.pane)) + seq!['\n'],
{
    let numbers = number_members(args.window, args.pane);
    let mut line = notification_json(args.title.as_str(), args.body.as_str(), &numbers);
    proof {
        reveal_strlit("\n");
    }
    line.append("\n");
    line
}

/// The number stored under `key` among `numbers`, the first such pair.
pub open spec fn number_member(numbers: Seq<(Seq<char>, u64)>, key: Seq<char>) -> Option<u64>
    decreases numbers.len(),
{
    if numbers.len() == 0 {
        None
    } else if numbers[0].0 == key {
        Some(numbers[0].1)
    } else {
        number_member(numbers.drop_first(), key)
    }
}

/// The keys of `numbers` are distinct, and none is `title` or `body`.
pub open spec fn plain_members(numbers: Seq<(Seq<char>, u64)>) -> bool {
    &&& forall|i: int, j: int| 0 <= i < j < numbers.len() ==> numbers[i].0 != numbers[j].0
    &&& forall|i: int| 0 <= i < numbers.len() ==> numbers[i].0 != "title"@ && numbers[i].0 != "body"@
}

/// What `serde_json::from_str::<Value>` reads from a line, as the fields a
/// notification uses: `None` when the line is not JSON; otherwise the
/// `title` and `body` members when they are strings, and the `window` and
/// `pane` members when they are non-negative integers that fit in a `u64`.
pub uninterp spec fn json_message(line: Seq<char>) -> Option<(Option<Seq<char>>, Option<Seq<char>>, Option<u64>, Option<u64>)>;

/// Parses a line with `serde_json::from_str::<serde_json::Value>` and takes
/// the fields out with `Value::get`, `as_str` and `as_u64`; what counts as
/// JSON is `serde_json`'s and is not spelled out here. A line that
/// `notification_json` wrote, with distinct number keys other than `title`
/// and `body`, reads back with the members it was written with:
/// `serde_json` escapes strings and writes integers so that its parser gives
/// the same values back.
#[verifier::external_body]
fn parse_json_message(line: &str) -> (r: Option<(Option<String>, Option<String>, Option<u64>, Option<u64>)>)
    ensures
        r is None <==> json_message(line@) is None,
        r matches Some((t, b, w, p)) ==> json_message(line@) == Some((
            match t { Some(s) => Some(s@), None => None },
            match b { Some(s) => Some(s@), None => None },
            w,
            p,
        )),
        r is None ==> forall|title: Seq<char>, body: Seq<char>, numbers: Seq<(Seq<char>, u64)>|
            line@ != #[trigger] json_notification(title, body, numbers),
        r matches Some((t, b, w, p)) ==> forall|title: Seq<char>, body: Seq<char>, numbers: Seq<(Seq<char>, u64)>|
            line@ == #[trigger] json_notification(title, body, numbers) && plain_members(numbers) ==> {
                &&& (t matches Some(ts) && ts@ == title)
                &&& (b matches Some(bs) && bs@ == body)
                &&& w == number_member(numbers, "window"@)
                &&& p == number_member(numbers, "pane"@)
            },
{
    let v: serde_json::Value = match serde_json::from_str(line) {
        Ok(v) => v,
        Err(_) => return None,
    };
    let text = |k: &str| v.get(k).and_then(serde_json::Value::as_str).map(String::from);
    let number = |k: &str| v.get(k).and_then(serde_json::Value::as_u64);
    Some((text("title"), text("body"), number("window"), number("pane")))
}

proof fn lemma_number_members(w: Option<usize>, p: Option<u32>)
    ensures
        plain_members(spec_number_members(w, p)),
        number_member(spec_number_members(w, p), "window"@) == (match w {
            Some(v) => Some(v as u64),
            None => None::<u64>,
        }),
        number_member(spec_number_members(w, p), "pane"@) == (match p {
            Some(v) => Some(v as u64),
            None => None::<u64>,
        }),
{
    reveal_strlit("window");
    reveal_strlit("pane");
    reveal_strlit("title");
    reveal_strlit("body");
    let ms = spec_number_members(w, p);
    assert("window"@ != "pane"@) by {
        assert("window"@.len() != "pane"@.len());
    }
    assert("window"@ != "title"@) by {
        assert("window"@.len() != "title"@.len());
    }
    assert("window"@ != "body"@) by {
        assert("window"@.len() != "body"@.len());
    }
    assert("pane"@ != "title"@) by {
        assert("pane"@.len() != "title"@.len());
    }
    assert("pane"@ != "body"@) by {
        assert("pane"@[0] != "body"@[0]);
    }
    let e = Seq::<(Seq<char>, u64)>::empty();
    assert(number_member(e, "window"@) == None::<u64>);
    assert(number_member(e, "pane"@) == None::<u64>);
    match (w, p) {
        (Some(x), Some(y)) => {
            let a = ("window"@, x as u64);
            let b = ("pane"@, y as u64);
            let sb = seq![b];
            assert(sb.drop_first() =~= e);
            assert(number_member(sb, "window"@) == None::<u64>);
            assert(number_member(sb, "pane"@) == Some(y as u64));
            assert(ms =~= seq![a, b]);
            assert(ms.drop_first() =~= sb);
            assert(number_member(ms, "window"@) == Some(x as u64));
            assert(number_member(ms, "pane"@) == Some(y as u64));
        },
        (Some(x), None) => {
            assert(ms =~= seq![("window"@, x as u64)]);
            assert(ms.drop_first() =~= e);
            assert(number_member(ms, "pane"@) == None::<u64>);
        },
        (None, Some(y)) => {
            assert(ms =~= seq![("pane"@, y as u64)]);
            assert(ms.drop_first() =~= e);
            assert(number_member(ms, "window"@) == None::<u64>);
        },
        (None, None) => {
            assert(ms =~= e);
        },
    }
}

/// The event for the fields of a received message: a missing title or body
/// is empty, the window and pane numbers are taken as `usize` and `u32`.
pub open spec fn spec_message_event(fields: (Option<Seq<char>>, Option<Seq<char>>, Option<u64>, Option<u64>)) -> (Seq<char>, Seq<char>, Option<usize>, Option<u32>) {
    (
        match fields.0 { Some(t) => t, None => Seq::empty() },
        match fields.1 { Some(b) => b, None => Seq::empty() },
        match fields.2 { Some(w) => Some(w as usize), None => None },
        match fields.3 { Some(p) => Some(p as u32), None => None },
    )
}

/// The event that a line received by the notification server becomes;
/// `None` for a line that is not JSON.
pub fn message_event(line: &str) -> (r: Option<AppEvent>)
    ensures
        json_message(line@) is None ==> r is None,
        json_message(line@) matches Some(f) ==> (r matches Some(AppEvent::ExternalNotification { title, body, window, pane })
            && (title@, body@, window, pane) == spec_message_event(f)),
        forall|t: Seq<char>, b: Seq<char>, w: Option<usize>, p: Option<u32>|
            line@ == #[trigger] json_notification(t, b, spec_number_members(w, p)) ==> (r matches Some(
                AppEvent::ExternalNotification { title, body, window, pane },
            ) && title@ == t && body@ == b && window == w && pane == p),
{
    proof {
        assert forall|w: Option<usize>, p: Option<u32>| #[trigger] plain_members(spec_number_members(w, p)) by {
            lemma_number_members(w, p);
        }
        assert forall|w: Option<usize>, p: Option<u32>|
            #[trigger] number_member(spec_number_members(w, p), "window"@) == (match w {
                Some(v) => Some(v as u64),
                None => None::<u64>,
            }) && number_member(spec_number_members(w, p), "pane"@) == (match p {
                Some(v) => Some(v as u64),
                None => None::<u64>,
            }) by {
            lemma_number_members(w, p);
        }
    }
    match parse_json_message(line) {
        None => None,
        Some((t, b, w, p)) => {
            let title = match t {
                Some(s) => s,
                None => String::new(),
            };
            let body = match b {
                Some(s) => s,
                None => String::new(),
            };
            let window: Option<usize> = match w {
                Some(v) => Some(v as usize),
                None => None,
            };
            let pane: Option<u32> = match p {
                Some(v) => Some(v as u32),
                None => None,
            };
            Some(AppEvent::ExternalNotification { title, body, window, pane })
        },
    }
}

/// The path of the socket that notifications are sent to: the value of
/// `XMUX_SOCKET_PATH` when it is set; otherwise `xmux.sock` in the directory
/// named by `XDG_RUNTIME_DIR` when that is set (joined as a path is: with a
/// `/` between them unless the directory is empty or already ends in `/`);
/// otherwise `/tmp/xmux.sock`.
pub open spec fn spec_socket_path(override_path: Option<Seq<char>>, runtime_dir: Option<Seq<char>>) -> Seq<char> {
    match override_path {
        Some(p) => p,
        None => match runtime_dir {
            Some(d) => if d.len() == 0 || d.last() == '/' {
                d + "xmux.sock"@
            } else {
                d + seq!['/'] + "xmux.sock"@
            },
            None => "/tmp/xmux.sock"@,
        },
    }
}

/// The socket path from the values of `XMUX_SOCKET_PATH` and
/// `XDG_RUNTIME_DIR`, `None` for a variable that is not set (see
/// `spec_socket_path`).
pub fn socket_path_from(override_path: Option<String>, runtime_dir: Option<String>) -> (r: String)
    ensures
        r@ == spec_socket_path(
            match override_path {
                Some(p) => Some(p@),
                None => None,
            },
            match runtime_dir {
                Some(d) => Some(d@),
                None => None,
            },
        ),
{
    match override_path {
        Some(p) => p,
        None => match runtime_dir {
            Some(d) => {
                let n = d.as_str().unicode_len();
                let mut path = d.clone();
                if n > 0 && d.as_str().get_char(n - 1) != '/' {
                    path.append("/");
                }
                path.append("xmux.sock");
                proof {
                    reveal_strlit("/");
                    reveal_strlit("xmux.sock");
                }
                path
            },
            None => String::from_str("/tmp/xmux.sock"),
        },
    }
}

} // verus!
