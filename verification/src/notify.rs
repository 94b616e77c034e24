//! What a system notification is made of on each platform: the backend's
//! name, the AppleScript source, the command-line arguments and the
//! UTF-16LE/base64 encoding PowerShell's `-EncodedCommand` expects. Starting
//! the processes is left to the caller.

use vstd::prelude::*;
use crate::chars::{chars_of, push_all, string_of};
use crate::platform::Platform;

verus! {

/// The notification backend used on `platform`; on macOS it depends on
/// whether `terminal-notifier` is on the `PATH`.
pub fn backend(platform: Platform, terminal_notifier_found: bool) -> (r: &'static str)
    ensures
        platform == Platform::MacOs && terminal_notifier_found ==> r@ == "terminal-notifier"@,
        platform == Platform::MacOs && !terminal_notifier_found ==> r@
            == "osascript (the system credits \"Script Editor\" as the sender)"@,
        platform == Platform::Windows ==> r@ == "PowerShell WinRT Toast"@,
        platform == Platform::Other ==> r@ == "notify-send"@,
{
    match platform {
        Platform::MacOs => {
            if terminal_notifier_found {
                "terminal-notifier"
            } else {
                "osascript (the system credits \"Script Editor\" as the sender)"
            }
        },
        Platform::Windows => "PowerShell WinRT Toast",
        Platform::Other => "notify-send",
    }
}

/// AppleScript string-literal escaping: a backslash and a double quote each
/// get a backslash in front.
pub open spec fn applescript_escaped(s: Seq<char>) -> Seq<char>
    decreases s.len(),
{
    if s.len() == 0 {
        Seq::empty()
    } else {
        let c = s.last();
        applescript_escaped(s.drop_last()) + if c == '\\' || c == '"' {
            seq!['\\', c]
        } else {
            seq![c]
        }
    }
}

/// Escape `text` for use inside an AppleScript string literal.
pub fn applescript_string(text: &str) -> (r: String)
    ensures
        r@ == applescript_escaped(text@),
{
    let v = chars_of(text);
    let mut out: Vec<char> = Vec::new();
    let mut i: usize = 0;
    while i < v.len()
        invariant
            i <= v.len(),
            v@ == text@,
            out@ == applescript_escaped(v@.take(i as int)),
        decreases v.len() - i,
    {
        let c = v[i];
        if c == '\\' || c == '"' {
            out.push('\\');
        }
        out.push(c);
        assert(v@.take(i + 1).drop_last() =~= v@.take(i as int));
        i = i + 1;
    }
    assert(v@.take(v.len() as int) =~= v@);
    string_of(&out)
}

/// The AppleScript that shows a notification through `osascript -e`.
pub open spec fn osascript_text(title: Seq<char>, body: Seq<char>, sound: Option<Seq<char>>) -> Seq<char> {
    "display notification \""@ + applescript_escaped(body) + "\" with title \""@
        + applescript_escaped(title) + "\""@ + match sound {
        Some(s) => " sound name \""@ + applescript_escaped(s) + "\""@,
        None => Seq::empty(),
    }
}

/// The `osascript -e` script for one notification.
pub fn osascript_script(title: &str, body: &str, sound: Option<&str>) -> (r: String)
    ensures
        r@ == osascript_text(
            title@,
            body@,
            match sound {
                Some(s) => Some(s@),
                None => None,
            },
        ),
{
    let mut out = chars_of("display notification \"");
    push_all(&mut out, &chars_of(applescript_string(body).as_str()));
    push_all(&mut out, &chars_of("\" with title \""));
    push_all(&mut out, &chars_of(applescript_string(title).as_str()));
    push_all(&mut out, &chars_of("\""));
    let ghost head = out@;
    match sound {
        Some(s) => {
            push_all(&mut out, &chars_of(" sound name \""));
            push_all(&mut out, &chars_of(applescript_string(s).as_str()));
            push_all(&mut out, &chars_of("\""));
        },
        None => {
            assert(out@ =~= head + Seq::<char>::empty());
        },
    }
    string_of(&out)
}

/// The arguments of `terminal-notifier` for one notification.
pub fn terminal_notifier_args(title: &str, body: &str, sound: Option<&str>) -> (r: Vec<String>)
    ensures
        r@.map_values(|a: String| a@) == seq!["-title"@, title@, "-message"@, body@, "-group"@, "float-clock"@]
            + match sound {
            Some(s) => seq!["-sound"@, s@],
            None => Seq::empty(),
        },
{
    let mut r: Vec<String> = Vec::new();
    r.push(String::from_str("-title"));
    r.push(title.to_owned());
    r.push(String::from_str("-message"));
    r.push(body.to_owned());
    r.push(String::from_str("-group"));
    r.push(String::from_str("float-clock"));
    let ghost head = r@.map_values(|a: String| a@);
    if let Some(s) = sound {
        r.push(String::from_str("-sound"));
        r.push(s.to_owned());
    }
    assert(r@.map_values(|a: String| a@) =~= seq!["-title"@, title@, "-message"@, body@, "-group"@, "float-clock"@]
        + match sound {
        Some(s) => seq!["-sound"@, s@],
        None => Seq::<Seq<char>>::empty(),
    });
    r
}

/// The arguments of `notify-send` for one notification.
pub fn notify_send_args(title: &str, body: &str) -> (r: Vec<String>)
    ensures
        r@.map_values(|a: String| a@) == seq!["-a"@, "FloatClock"@, "-u"@, "normal"@, title@, body@],
{
    let mut r: Vec<String> = Vec::new();
    r.push(String::from_str("-a"));
    r.push(String::from_str("FloatClock"));
    r.push(String::from_str("-u"));
    r.push(String::from_str("normal"));
    r.push(title.to_owned());
    r.push(body.to_owned());
    assert(r@.map_values(|a: String| a@) =~= seq!["-a"@, "FloatClock"@, "-u"@, "normal"@, title@, body@]);
    r
}

/// The PowerShell script that raises a WinRT toast; the title and body come
/// from the environment so that no quoting is needed.
pub const WINDOWS_PS: &'static str = "
$ErrorActionPreference = 'Stop'
[void][Windows.UI.Notifications.ToastNotificationManager, Windows.UI.Notifications, ContentType=WindowsRuntime]
[void][Windows.Data.Xml.Dom.XmlDocument, Windows.Data.Xml.Dom.XmlDocument, ContentType=WindowsRuntime]
$template = [Windows.UI.Notifications.ToastNotificationManager]::GetTemplateContent(
    [Windows.UI.Notifications.ToastTemplateType]::ToastText02)
$texts = $template.GetElementsByTagName('text')
[void]$texts.Item(0).AppendChild($template.CreateTextNode($env:FLOAT_CLOCK_TITLE))
[void]$texts.Item(1).AppendChild($template.CreateTextNode($env:FLOAT_CLOCK_BODY))
$toast = [Windows.UI.Notifications.ToastNotification]::new($template)
[Windows.UI.Notifications.ToastNotificationManager]::CreateToastNotifier('FloatClock').Show($toast)
";

/// The arguments of `powershell` for one notification.
pub fn powershell_args() -> (r: Vec<String>)
    ensures
        r@.map_values(|a: String| a@) == seq![
            "-NoProfile"@,
            "-NonInteractive"@,
            "-EncodedCommand"@,
            base64(le_bytes(utf16(WINDOWS_PS@))),
        ],
{
    let mut r: Vec<String> = Vec::new();
    r.push(String::from_str("-NoProfile"));
    r.push(String::from_str("-NonInteractive"));
    r.push(String::from_str("-EncodedCommand"));
    r.push(base64_utf16_le(WINDOWS_PS));
    assert(r@.map_values(|a: String| a@) =~= seq![
        "-NoProfile"@,
        "-NonInteractive"@,
        "-EncodedCommand"@,
        base64(le_bytes(utf16(WINDOWS_PS@))),
    ]);
    r
}

/// The UTF-16 code units of one character: itself below U+10000, a
/// surrogate pair above.
pub open spec fn utf16_units(c: char) -> Seq<int> {
    let v = c as u32 as int;
    if v < 0x10000 {
        seq![v]
    } else {
        seq![0xD800 + (v - 0x10000) / 0x400, 0xDC00 + (v - 0x10000) % 0x400]
    }
}

/// `str::encode_utf16`.
pub open spec fn utf16(s: Seq<char>) -> Seq<int>
    decreases s.len(),
{
    if s.len() == 0 {
        Seq::empty()
    } else {
        utf16(s.drop_last()) + utf16_units(s.last())
    }
}

/// Each 16-bit unit as two bytes, low byte first.
pub open spec fn le_bytes(units: Seq<int>) -> Seq<u8>
    decreases units.len(),
{
    if units.len() == 0 {
        Seq::empty()
    } else {
        le_bytes(units.drop_last()) + seq![(units.last() % 256) as u8, (units.last() / 256) as u8]
    }
}

/// The standard base64 alphabet.
pub open spec fn b64_digit(v: int) -> char {
    if v < 26 {
        (65 + v) as char
    } else if v < 52 {
        (97 + (v - 26)) as char
    } else if v < 62 {
        (48 + (v - 52)) as char
    } else if v == 62 {
        '+'
    } else {
        '/'
    }
}

/// One group of one to three bytes as four base64 characters, padded
/// with `=`.
pub open spec fn b64_group(b: Seq<u8>) -> Seq<char> {
    let b1: int = if b.len() > 1 { b[1] as int } else { 0 };
    let b2: int = if b.len() > 2 { b[2] as int } else { 0 };
    let t: int = (b[0] as int) * 65536 + b1 * 256 + b2;
    seq![
        b64_digit(t / 262144),
        b64_digit((t / 4096) % 64),
        if b.len() > 1 { b64_digit((t / 64) % 64) } else { '=' },
        if b.len() > 2 { b64_digit(t % 64) } else { '=' },
    ]
}

/// Padded base64 of a byte sequence.
pub open spec fn base64(b: Seq<u8>) -> Seq<char>
    decreases b.len(),
{
    if b.len() == 0 {
        Seq::empty()
    } else if b.len() <= 3 {
        b64_group(b)
    } else {
        b64_group(b.take(3)) + base64(b.skip(3))
    }
}

fn b64_char(v: u32) -> (c: char)
    requires
        v < 64,
    ensures
        c == b64_digit(v as int),
{
    if v < 26 {
        ((v as u8) + 65) as char
    } else if v < 52 {
        ((v - 26) as u8 + 97) as char
    } else if v < 62 {
        ((v - 52) as u8 + 48) as char
    } else if v == 62 {
        '+'
    } else {
        '/'
    }
}

/// The UTF-16LE bytes of `text`.
fn utf16_le(text: &str) -> (r: Vec<u8>)
    ensures
        r@ == le_bytes(utf16(text@)),
{
    let v = chars_of(text);
    let mut out: Vec<u8> = Vec::new();
    let ghost mut units: Seq<int> = Seq::empty();
    let mut i: usize = 0;
    while i < v.len()
        invariant
            i <= v.len(),
            v@ == text@,
            units == utf16(v@.take(i as int)),
            out@ == le_bytes(units),
        decreases v.len() - i,
    {
        let c = v[i];
        let code = c as u32;
        assert(v@.take(i + 1).drop_last() =~= v@.take(i as int));
        assert(v@.take(i + 1).last() == c);
        assert(utf16(v@.take(i + 1)) == units + utf16_units(c));
        proof {
            vstd::utf8::char_is_scalar(c);
        }
        if code < 0x10000 {
            out.push((code % 256) as u8);
            out.push((code / 256) as u8);
            proof {
                let next = units + seq![code as int];
                assert(next.drop_last() =~= units);
                assert(out@ =~= le_bytes(next));
                units = next;
            }
        } else {
            let high = 0xD800 + (code - 0x10000) / 0x400;
            let low = 0xDC00 + (code - 0x10000) % 0x400;
            out.push((high % 256) as u8);
            out.push((high / 256) as u8);
            out.push((low % 256) as u8);
            out.push((low / 256) as u8);
            proof {
                let mid = units + seq![high as int];
                let next = units + seq![high as int, low as int];
                assert(mid.drop_last() =~= units);
                assert(next.drop_last() =~= mid);
                assert(le_bytes(mid) == le_bytes(units) + seq![(high % 256) as u8, (high / 256) as u8]);
                assert(le_bytes(next) == le_bytes(mid) + seq![(low % 256) as u8, (low / 256) as u8]);
                assert(out@ =~= le_bytes(next));
                assert(utf16_units(c) =~= seq![high as int, low as int]);
                units = next;
            }
        }
        i = i + 1;
    }
    assert(v@.take(v.len() as int) =~= v@);
    out
}

/// Append the four characters of the group `bytes[i..i + len]`.
fn push_group(out: &mut Vec<char>, bytes: &Vec<u8>, i: usize, len: usize)
    requires
        1 <= len <= 3,
        i + len <= bytes.len(),
    ensures
        final(out)@ == old(out)@ + b64_group(bytes@.subrange(i as int, i + len)),
{
    let ghost g = bytes@.subrange(i as int, i + len);
    let b0 = bytes[i] as u32;
    let b1 = if len > 1 { bytes[i + 1] as u32 } else { 0 };
    let b2 = if len > 2 { bytes[i + 2] as u32 } else { 0 };
    assert(g[0] == bytes@[i as int]);
    assert(len > 1 ==> g[1] == bytes@[i + 1]);
    assert(len > 2 ==> g[2] == bytes@[i + 2]);
    let t = b0 * 65536 + b1 * 256 + b2;
    assert(t < 16777216);
    let c0 = b64_char(t / 262144);
    let c1 = b64_char((t / 4096) % 64);
    let c2 = if len > 1 { b64_char((t / 64) % 64) } else { '=' };
    let c3 = if len > 2 { b64_char(t % 64) } else { '=' };
    out.push(c0);
    out.push(c1);
    out.push(c2);
    out.push(c3);
    assert(b64_group(g) =~= seq![c0, c1, c2, c3]);
}

proof fn lemma_base64_step(b: Seq<u8>, i: int, step: int)
    requires
        0 <= i < b.len(),
        step == if b.len() - i > 3 { 3 } else { b.len() - i },
    ensures
        base64(b.skip(i)) == b64_group(b.subrange(i, i + step)) + base64(b.skip(i + step)),
{
    let s = b.skip(i);
    if s.len() <= 3 {
        assert(s =~= b.subrange(i, i + step));
        assert(b.skip(i + step) =~= Seq::<u8>::empty());
        assert(base64(b.skip(i + step)) =~= Seq::<char>::empty());
        assert(base64(s) =~= b64_group(s) + Seq::<char>::empty());
    } else {
        assert(s.take(3) =~= b.subrange(i, i + 3));
        assert(s.skip(3) =~= b.skip(i + 3));
    }
}

/// What PowerShell's `-EncodedCommand` expects: the script's UTF-16LE
/// bytes, base64-encoded.
pub fn base64_utf16_le(text: &str) -> (r: String)
    ensures
        r@ == base64(le_bytes(utf16(text@))),
{
    let bytes = utf16_le(text);
    let n = bytes.len();
    let mut out: Vec<char> = Vec::new();
    let mut i: usize = 0;
    assert(bytes@.skip(0) =~= bytes@);
    assert(out@ + base64(bytes@.skip(0)) =~= base64(bytes@));
    while i < n
        invariant
            i <= n == bytes.len(),
            out@ + base64(bytes@.skip(i as int)) == base64(bytes@),
        decreases n - i,
    {
        let step: usize = if n - i > 3 { 3 } else { n - i };
        let ghost before = out@;
        push_group(&mut out, &bytes, i, step);
        proof {
            lemma_base64_step(bytes@, i as int, step as int);
            assert(out@ + base64(bytes@.skip(i + step)) =~= before + base64(bytes@.skip(i as int)));
        }
        i = i + step;
    }
    assert(bytes@.skip(n as int) =~= Seq::<u8>::empty());
    assert(out@ =~= base64(bytes@));
    string_of(&out)
}

} // verus!
