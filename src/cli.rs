//! The decisions of the command-line tools and of the store's directory:
//! which options are valid, what a log file is called, and what the client
//! prints and how it exits for each answer of the server.
use vstd::prelude::*;
use crate::protocol::KvResponse;

verus! {

/// Relies on `String::push`: appends the character to the end of the string.
#[verifier::external_body]
fn push_char(s: &mut String, c: char)
    ensures
        final(s)@ == old(s)@.push(c),
{
    s.push(c)
}

/// The decimal digit `d`, below ten, as a character.
pub open spec fn digit_char(d: nat) -> char {
    if d == 0 { '0' }
    else if d == 1 { '1' }
    else if d == 2 { '2' }
    else if d == 3 { '3' }
    else if d == 4 { '4' }
    else if d == 5 { '5' }
    else if d == 6 { '6' }
    else if d == 7 { '7' }
    else if d == 8 { '8' }
    else { '9' }
}

/// The decimal notation of `n`, with no leading zero.
pub open spec fn decimal(n: nat) -> Seq<char>
    decreases n,
{
    if n < 10 {
        seq![digit_char(n)]
    } else {
        decimal(n / 10).push(digit_char(n % 10))
    }
}

/// The number that a non-empty string of decimal digits denotes.
pub open spec fn digits_value(s: Seq<char>) -> nat
    decreases s.len(),
{
    if s.len() == 0 {
        0
    } else {
        digits_value(s.drop_last()) * 10 + (s.last() as nat - '0' as nat) as nat
    }
}

/// Every character is a decimal digit.
pub open spec fn all_digits(s: Seq<char>) -> bool {
    forall|i: int| 0 <= i < s.len() ==> '0' <= #[trigger] s[i] && s[i] <= '9'
}

/// The suffix of a log file's name.
pub open spec fn log_suffix() -> Seq<char> {
    seq!['.', 'l', 'o', 'g']
}

/// The name of the file of generation `gen`.
pub open spec fn log_name(gen: nat) -> Seq<char> {
    decimal(gen) + log_suffix()
}

/// The generation that a file name stands for: decimal digits followed by
/// `.log`, with a value that fits in 64 bits.
pub open spec fn generation_of(name: Seq<char>) -> Option<u64> {
    let n = name.len() as int;
    if n > 4 && name.subrange(n - 4, n) == log_suffix() && all_digits(name.subrange(0, n - 4))
        && digits_value(name.subrange(0, n - 4)) <= u64::MAX {
        Some(digits_value(name.subrange(0, n - 4)) as u64)
    } else {
        None
    }
}

/// The decimal notation of `n`.
pub fn decimal_string(n: u64) -> (r: String)
    ensures
        r@ == decimal(n as nat),
{
    let mut digits: Vec<char> = Vec::new();
    let mut m: u64 = n;
    loop
        invariant_except_break
            m <= n,
            decimal(n as nat) == decimal(m as nat) + digits@.reverse(),
        ensures
            decimal(n as nat) == digits@.reverse(),
        decreases m,
    {
        let d = m % 10;
        let c = if d == 0 { '0' }
            else if d == 1 { '1' }
            else if d == 2 { '2' }
            else if d == 3 { '3' }
            else if d == 4 { '4' }
            else if d == 5 { '5' }
            else if d == 6 { '6' }
            else if d == 7 { '7' }
            else if d == 8 { '8' }
            else { '9' };
        proof {
            assert(c == digit_char(d as nat));
        }
        if m < 10 {
            let ghost before = digits@;
            digits.push(c);
            proof {
                assert(digits@.reverse() =~= seq![c] + before.reverse());
                assert(decimal(m as nat) == seq![c]);
                assert(decimal(n as nat) =~= digits@.reverse());
            }
            break;
        }
        let ghost before = digits@;
        digits.push(c);
        proof {
            assert(digits@.reverse() =~= seq![c] + before.reverse());
            assert(decimal(m as nat) == decimal((m / 10) as nat).push(c));
            assert(decimal(n as nat) =~= decimal((m / 10) as nat) + digits@.reverse());
        }
        m = m / 10;
    }
    let mut r = String::new();
    let mut i: usize = digits.len();
    while i > 0
        invariant
            i <= digits@.len(),
            r@ =~= digits@.reverse().take((digits@.len() - i) as int),
            decimal(n as nat) == digits@.reverse(),
        decreases i,
    {
        i = i - 1;
        push_char(&mut r, digits[i]);
        proof {
            assert(digits@.reverse()[(digits@.len() - 1 - i) as int] == digits@[i as int]);
            assert(r@ =~= digits@.reverse().take((digits@.len() - i) as int));
        }
    }
    r
}

/// The name of the log file of generation `gen`: `<gen>.log`.
pub fn log_file_name(gen: u64) -> (r: String)
    ensures
        r@ == log_name(gen as nat),
{
    let mut r = decimal_string(gen);
    push_char(&mut r, '.');
    push_char(&mut r, 'l');
    push_char(&mut r, 'o');
    push_char(&mut r, 'g');
    proof {
        assert(r@ =~= decimal(gen as nat) + log_suffix());
    }
    r
}

/// The path of the log file of generation `gen` in directory `dir`: the file
/// name alone for an empty directory, else joined with a single `/`.
pub fn format_log_path(dir: &str, gen: u64) -> (r: String)
    ensures
        dir@.len() == 0 ==> r@ == log_name(gen as nat),
        dir@.len() > 0 && dir@.last() == '/' ==> r@ == dir@ + log_name(gen as nat),
        dir@.len() > 0 && dir@.last() != '/' ==> r@ == dir@ + seq!['/'] + log_name(gen as nat),
{
    let name = log_file_name(gen);
    let n = dir.unicode_len();
    if n == 0 {
        return name;
    }
    let mut r = String::from_str(dir);
    if dir.get_char(n - 1) != '/' {
        push_char(&mut r, '/');
    }
    let r = r.concat(name.as_str());
    r
}

/// The generation that a directory entry's name stands for, if it is a log file.
pub fn log_generation(name: &str) -> (r: Option<u64>)
    ensures
        r == generation_of(name@),
{
    let n = name.unicode_len();
    if n <= 4 {
        return None;
    }
    if name.get_char(n - 4) != '.' || name.get_char(n - 3) != 'l' || name.get_char(n - 2) != 'o'
        || name.get_char(n - 1) != 'g' {
        proof {
            assert(name@.subrange(n - 4, n as int)[0] == name@[n - 4]);
            assert(name@.subrange(n - 4, n as int)[1] == name@[n - 3]);
            assert(name@.subrange(n - 4, n as int)[2] == name@[n - 2]);
            assert(name@.subrange(n - 4, n as int)[3] == name@[n - 1]);
        }
        return None;
    }
    proof {
        assert(name@.subrange(n - 4, n as int) =~= log_suffix());
    }
    let ghost digits = name@.subrange(0, n - 4);
    let mut v: u64 = 0;
    let mut i: usize = 0;
    while i < n - 4
        invariant
            n == name@.len(),
            n > 4,
            digits == name@.subrange(0, n - 4),
            i <= n - 4,
            all_digits(digits.take(i as int)),
            v == digits_value(digits.take(i as int)),
        decreases n - 4 - i,
    {
        let c = name.get_char(i);
        if c < '0' || c > '9' {
            proof {
                assert(digits[i as int] == c);
            }
            return None;
        }
        let d = (c as u32 - '0' as u32) as u64;
        proof {
            assert(digits.take(i as int + 1).drop_last() =~= digits.take(i as int));
            assert(digits.take(i as int + 1).last() == c);
        }
        if v > (u64::MAX - d) / 10 {
            proof {
                assert(digits_value(digits.take(i as int + 1)) == v * 10 + d);
                lemma_digits_value_grows(digits, i as int + 1);
            }
            return None;
        }
        v = v * 10 + d;
        i = i + 1;
        proof {
            assert forall|j: int| 0 <= j < i implies '0' <= #[trigger] digits.take(i as int)[j] && digits.take(
                i as int,
            )[j] <= '9' by {
                if j < i - 1 {
                    assert(digits.take(i as int)[j] == digits.take(i - 1)[j]);
                }
            }
        }
    }
    proof {
        assert(digits.take(n - 4) =~= digits);
    }
    Some(v)
}

/// A longer string of digits denotes at least as much as any prefix of it.
proof fn lemma_digits_value_grows(s: Seq<char>, i: int)
    requires
        0 <= i <= s.len(),
    ensures
        digits_value(s.take(i)) <= digits_value(s),
    decreases s.len() - i,
{
    if i < s.len() {
        lemma_digits_value_grows(s, i + 1);
        assert(s.take(i + 1).drop_last() =~= s.take(i));
    } else {
        assert(s.take(i) =~= s);
    }
}

/// The engines that the server knows.
pub open spec fn known_engine(e: Seq<char>) -> bool {
    e == "kvs"@ || e == "sled"@
}

/// Accepts the name of a known engine, `kvs` or `sled`, and refuses any other.
pub fn valid_engine(engine: String) -> (r: Result<(), String>)
    ensures
        known_engine(engine@) <==> r is Ok,
        r is Err ==> r->Err_0@ == "The server only supports kvs or sled as an engine"@,
{
    proof {
        reveal_strlit("kvs");
        reveal_strlit("sled");
    }
    let kvs = String::from_str("kvs");
    let sled = String::from_str("sled");
    if engine == kvs || engine == sled {
        return Ok(());
    }
    Err(String::from_str("The server only supports kvs or sled as an engine"))
}

/// Accepts an address that resolved to at least one socket address.
pub fn valid_ip(resolved: bool) -> (r: Result<(), String>)
    ensures
        resolved <==> r is Ok,
        r is Err ==> r->Err_0@ == "Invalid address provided"@,
{
    if resolved {
        Ok(())
    } else {
        Err(String::from_str("Invalid address provided"))
    }
}

/// Whether an engine may open the store directory: any engine where the
/// directory does not exist yet; else `sled` exactly where the directory holds
/// its `db` subtree, and `kvs` exactly where it does not.
pub fn compatible_engine(engine: &str, store_exists: bool, db_exists: bool) -> (r: bool)
    ensures
        r == (!store_exists || (db_exists && engine@ == "sled"@) || (!db_exists && engine@ == "kvs"@)),
{
    if !store_exists {
        return true;
    }
    proof {
        reveal_strlit("kvs");
        reveal_strlit("sled");
    }
    let e = String::from_str(engine);
    if db_exists && e == String::from_str("sled") {
        return true;
    }
    if !db_exists && e == String::from_str("kvs") {
        return true;
    }
    false
}

/// The client's commands.
#[derive(Debug, Clone, Copy, PartialEq, Eq, Structural)]
pub enum Verb {
    /// `get KEY`
    Get,
    /// `set KEY VALUE`
    Put,
    /// `rm KEY`
    Rm,
}

/// What the client prints, on which stream, and the code it exits with.
#[derive(Debug)]
pub struct Report {
    pub stdout: Option<String>,
    pub stderr: Option<String>,
    pub exit_code: i32,
}

/// What the client reports for the server's answer to one command: a value
/// found is printed; a `get` miss prints `Key not found` and still succeeds;
/// an error is printed (on the error stream for `rm`) and exits with 1.
pub open spec fn expected_report(verb: Verb, stdout: Option<Seq<char>>, stderr: Option<Seq<char>>, code: i32, resp: KvResponse) -> bool {
    match resp {
        KvResponse::Success(v) => code == 0 && stderr is None && match verb {
            Verb::Get => match v {
                Some(s) => stdout == Some(s@),
                None => stdout == Some("Key not found"@),
            },
            _ => stdout is None,
        },
        KvResponse::Error(m) => code == 1 && match verb {
            Verb::Rm => stderr == Some(m@) && stdout is None,
            _ => stdout == Some(m@) && stderr is None,
        },
    }
}

impl Report {
    /// What is printed on standard output.
    pub open spec fn view_out(&self) -> Option<Seq<char>> {
        match self.stdout {
            Some(s) => Some(s@),
            None => None,
        }
    }

    /// What is printed on the error stream.
    pub open spec fn view_err(&self) -> Option<Seq<char>> {
        match self.stderr {
            Some(s) => Some(s@),
            None => None,
        }
    }
}

/// The client's report for `resp`, the answer to a `verb` command.
pub fn client_report(verb: Verb, resp: KvResponse) -> (r: Report)
    ensures
        expected_report(verb, r.view_out(), r.view_err(), r.exit_code, resp),
{
    proof {
        reveal_strlit("Key not found");
    }
    match resp {
        KvResponse::Success(v) => match verb {
            Verb::Get => match v {
                Some(s) => Report { stdout: Some(s), stderr: None, exit_code: 0 },
                None => Report { stdout: Some(String::from_str("Key not found")), stderr: None, exit_code: 0 },
            },
            _ => Report { stdout: None, stderr: None, exit_code: 0 },
        },
        KvResponse::Error(m) => match verb {
            Verb::Rm => Report { stdout: None, stderr: Some(m), exit_code: 1 },
            _ => Report { stdout: Some(m), stderr: None, exit_code: 1 },
        },
    }
}

} // verus!
