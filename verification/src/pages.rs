//! The page on which the dashboard's password is asked for.

use vstd::prelude::*;

verus! {

/// The page up to the place where an error is told.
pub const LOGIN_HEAD: &'static str = r##"<!doctype html><html lang="en"><head><meta charset="utf-8">
<meta name="viewport" content="width=device-width, initial-scale=1"><title>NIM Proxy — Sign in</title>
<style>
:root { color-scheme: light dark; }
body { margin:0; min-height:100vh; display:grid; place-items:center;
  font:15px/1.5 system-ui,-apple-system,"Segoe UI",sans-serif; background:#f9f9f7; color:#0b0b0b; }
@media (prefers-color-scheme:dark) { body { background:#0d0d0d; color:#fff; } }
.card { background:Canvas; border:1px solid rgba(128,128,128,.25); border-radius:14px;
  padding:28px 26px; width:300px; box-shadow:0 6px 24px rgba(0,0,0,.12); }
h1 { font-size:17px; margin:0 0 4px; }
p.sub { color:#898781; font-size:13px; margin:0 0 18px; }
input { width:100%; box-sizing:border-box; font:inherit; padding:9px 11px; border-radius:9px;
  border:1px solid rgba(128,128,128,.4); background:Field; color:inherit; margin-bottom:12px; }
button { width:100%; font:inherit; font-weight:600; padding:9px; border:0; border-radius:9px;
  background:#2a78d6; color:#fff; cursor:pointer; }
.err { color:#d03b3b; font-size:13px; margin:0 0 12px; }
</style></head><body>
<form class="card" method="post" action="/login">
  <h1>NIM&nbsp;Proxy</h1><p class="sub">Enter the dashboard password.</p>
  "##;

/// What a wrong password is told.
pub const LOGIN_ERROR: &'static str = r#"<p class="err">Incorrect password.</p>"#;

/// The rest of the page.
pub const LOGIN_TAIL: &'static str = r##"
  <input type="password" name="password" placeholder="Password" autofocus autocomplete="current-password">
  <button type="submit">Sign in</button>
</form></body></html>"##;

/// What a client is told whose logins are throttled, and after how many seconds
/// it may try again.
pub const THROTTLED_TEXT: &'static str = "too many failed attempts, try again shortly\n";

pub const THROTTLED_RETRY_SECS: u64 = 60;

/// The login page.
pub open spec fn login_text(error: bool) -> Seq<char> {
    LOGIN_HEAD@ + if error {
        LOGIN_ERROR@
    } else {
        ""@
    } + LOGIN_TAIL@
}

/// The login page and its status: after a wrong password it says so, and is
/// unauthorized.
pub fn login_html(error: bool) -> (r: (u16, String))
    ensures
        r.0 == if error {
            401u16
        } else {
            200u16
        },
        r.1@ == login_text(error),
{
    let mut page = LOGIN_HEAD.to_owned();
    page.append(if error { LOGIN_ERROR } else { "" });
    page.append(LOGIN_TAIL);
    (
        if error {
            401
        } else {
            200
        },
        page,
    )
}

} // verus!
