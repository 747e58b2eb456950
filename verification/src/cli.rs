//! The command line: which command is meant, what it does, and what it prints.

use vstd::prelude::*;

use crate::dialog::EncryptMode;
use crate::job::Job;
use crate::path::ends_with;
use crate::session::{lock, lock_started, same_text, unlock, unlock_started, Started};
use crate::text::{decimal, decimal_text, holds, holds_at};
use crate::vault::{read_vault_salt, salt_of, vault_exists};
use crate::walk::{EntryKind, Listing};

verus! {

/// A command.
#[derive(Clone, Copy, PartialEq, Eq, Debug, Structural)]
pub enum Command {
    /// Tell whether the folder is locked.
    Status,
    /// Lock the folder in full mode.
    Encrypt,
    /// Lock the folder in simple mode.
    EncryptSimple,
    /// Unlock the folder.
    Decrypt,
}

/// What the arguments come to. `S` is the type of texts.
#[derive(PartialEq, Eq, Debug)]
pub enum Request<S> {
    /// No command was given.
    Nothing,
    /// The command is not known.
    Unknown(S),
    /// A command, and the password if one was given.
    Run(Command, Option<S>),
}

/// A request as texts.
pub open spec fn request_view(r: Request<String>) -> Request<Seq<char>> {
    match r {
        Request::Nothing => Request::Nothing,
        Request::Unknown(s) => Request::Unknown(s@),
        Request::Run(c, Some(p)) => Request::Run(c, Some(p@)),
        Request::Run(c, None) => Request::Run(c, None),
    }
}

/// The name of a command.
pub open spec fn command_name(c: Command) -> Seq<char> {
    match c {
        Command::Status => "status"@,
        Command::Encrypt => "encrypt"@,
        Command::EncryptSimple => "encrypt-simple"@,
        Command::Decrypt => "decrypt"@,
    }
}

/// The command of a name.
pub open spec fn command_of(name: Seq<char>) -> Option<Command> {
    if name == "status"@ {
        Some(Command::Status)
    } else if name == "encrypt"@ {
        Some(Command::Encrypt)
    } else if name == "encrypt-simple"@ {
        Some(Command::EncryptSimple)
    } else if name == "decrypt"@ {
        Some(Command::Decrypt)
    } else {
        None
    }
}

/// The request that arguments stand for; the first is the program's own name.
pub open spec fn requested(args: Seq<String>) -> Request<Seq<char>> {
    if args.len() < 2 {
        Request::Nothing
    } else {
        match command_of(args[1]@) {
            None => Request::Unknown(args[1]@),
            Some(c) => if args.len() > 2 {
                Request::Run(c, Some(args[2]@))
            } else {
                Request::Run(c, None)
            },
        }
    }
}

fn find_command(name: &str) -> (c: Option<Command>)
    ensures
        c == command_of(name@),
{
    if same_text(name, "status") {
        Some(Command::Status)
    } else if same_text(name, "encrypt") {
        Some(Command::Encrypt)
    } else if same_text(name, "encrypt-simple") {
        Some(Command::EncryptSimple)
    } else if same_text(name, "decrypt") {
        Some(Command::Decrypt)
    } else {
        None
    }
}

/// Read the arguments, of which the first is the program's own name.
pub fn parse_args(args: &Vec<String>) -> (r: Request<String>)
    ensures
        request_view(r) == requested(args@),
{
    if args.len() < 2 {
        return Request::Nothing;
    }
    match find_command(args[1].as_str()) {
        None => Request::Unknown(String::from_str(args[1].as_str())),
        Some(c) => if args.len() > 2 {
            Request::Run(c, Some(String::from_str(args[2].as_str())))
        } else {
            Request::Run(c, None)
        },
    }
}

/// Every command is found under its name.
pub proof fn commands_are_found(c: Command)
    ensures
        command_of(command_name(c)) == Some(c),
{
    reveal_strlit("status");
    reveal_strlit("encrypt");
    reveal_strlit("encrypt-simple");
    reveal_strlit("decrypt");
    assert("status"@.len() == 6);
    assert("encrypt"@.len() == 7 && "encrypt"@[0] == 'e');
    assert("encrypt-simple"@.len() == 14);
    assert("decrypt"@.len() == 7 && "decrypt"@[0] == 'd');
}

// ── the commands ──

/// The line that tells how the program is used.
pub fn usage() -> (s: &'static str)
    ensures
        s@ == "usage: flock_cli <status|encrypt <pw>|encrypt-simple <pw>|decrypt <pw>>"@,
{
    "usage: flock_cli <status|encrypt <pw>|encrypt-simple <pw>|decrypt <pw>>"
}

/// Tell whether the folder is locked, by what is at the name of the vault.
pub fn cmd_status(at_vault: Option<EntryKind>) -> (s: String)
    ensures
        s@ == if at_vault == Some(EntryKind::File) {
            "locked (encrypted vault present)"@
        } else {
            "unlocked (no vault present)"@
        },
{
    if vault_exists(at_vault) {
        String::from_str("locked (encrypted vault present)")
    } else {
        String::from_str("unlocked (no vault present)")
    }
}

/// The message for a command without its password.
pub open spec fn missing_password() -> Seq<char> {
    "missing password argument"@
}

fn flatten(s: Started) -> (r: Result<Job, String>)
    ensures
        r == match s {
            Started::NoKey(e) => Err(e),
            Started::Failed(e) => Err(e),
            Started::Going(job) => Ok(job),
        },
{
    match s {
        Started::NoKey(e) => Err(e),
        Started::Failed(e) => Err(e),
        Started::Going(job) => Ok(job),
    }
}

/// Is this what locking under a password and a salt starts with, where a missing
/// key is a failure like any other?
pub open spec fn lock_gives(
    mode: EncryptMode,
    listing: Result<Listing, String>,
    password: Seq<u8>,
    salt: Seq<u8>,
    r: Result<Job, String>,
) -> bool {
    match r {
        Ok(job) => lock_started(mode, listing, password, salt, Started::Going(job)),
        Err(e) => {
            ||| lock_started(mode, listing, password, salt, Started::NoKey(e))
            ||| lock_started(mode, listing, password, salt, Started::Failed(e))
        },
    }
}

/// Is this what locking under a password and some salt starts with?
pub open spec fn lock_gives_with_some_salt(
    mode: EncryptMode,
    listing: Result<Listing, String>,
    password: Seq<u8>,
    r: Result<Job, String>,
) -> bool {
    exists|salt: Seq<u8>|
        salt.len() == 16 && #[trigger] lock_gives(mode, listing, password, salt, r)
}

/// Is this what locking from the command line starts with?
pub open spec fn cmd_lock_starts(
    mode: EncryptMode,
    pw: Option<Seq<u8>>,
    listing: Result<Listing, String>,
    r: Result<Job, String>,
) -> bool {
    match pw {
        None => r matches Err(e) && e@ == missing_password(),
        Some(p) => lock_gives_with_some_salt(mode, listing, p, r),
    }
}

/// A password as the bytes of its text.
pub open spec fn pw_bytes(pw: Option<&str>) -> Option<Seq<u8>> {
    match pw {
        Some(p) => Some(vstd::utf8::encode_utf8(p@)),
        None => None,
    }
}

fn cmd_lock(mode: EncryptMode, pw: Option<&str>, listing: Result<Listing, String>) -> (r: Result<
    Job,
    String,
>)
    ensures
        cmd_lock_starts(mode, pw_bytes(pw), listing, r),
{
    match pw {
        None => Err(String::from_str("missing password argument")),
        Some(p) => {
            let s = lock(mode, listing, p.as_bytes());
            let ghost bytes = vstd::utf8::encode_utf8(p@);
            let ghost salt = choose|salt: Seq<u8>|
                salt.len() == 16 && #[trigger] lock_started(mode, listing, bytes, salt, s);
            let r = flatten(s);
            assert(lock_gives(mode, listing, bytes, salt, r));
            r
        },
    }
}

/// Start locking the folder in full mode.
pub fn cmd_encrypt(pw: Option<&str>, listing: Result<Listing, String>) -> (r: Result<Job, String>)
    ensures
        cmd_lock_starts(EncryptMode::Full, pw_bytes(pw), listing, r),
{
    cmd_lock(EncryptMode::Full, pw, listing)
}

/// Start locking the folder in simple mode.
pub fn cmd_encrypt_simple(pw: Option<&str>, listing: Result<Listing, String>) -> (r: Result<
    Job,
    String,
>)
    ensures
        cmd_lock_starts(EncryptMode::Simple, pw_bytes(pw), listing, r),
{
    cmd_lock(EncryptMode::Simple, pw, listing)
}

/// Is this what unlocking from the command line starts with?
pub open spec fn cmd_unlock_starts(
    pw: Option<Seq<u8>>,
    head: Result<Vec<u8>, String>,
    body: Result<Vec<u8>, String>,
    r: Result<Job, String>,
) -> bool {
    match pw {
        None => r matches Err(e) && e@ == missing_password(),
        Some(p) => match head {
            Err(f) => r matches Err(e) && e@ == f@,
            Ok(h) => match salt_of(h@) {
                Err(f) => r matches Err(e) && e@ == f,
                Ok(salt) => match r {
                    Ok(job) => unlock_started(salt, h@, body, p, Started::Going(job)),
                    Err(e) => {
                        ||| unlock_started(salt, h@, body, p, Started::NoKey(e))
                        ||| unlock_started(salt, h@, body, p, Started::Failed(e))
                    },
                },
            },
        },
    }
}

/// Start unlocking the folder. `head` is the first bytes of the vault, `body` what
/// is to be decrypted of it, or why they could not be read.
pub fn cmd_decrypt(
    pw: Option<&str>,
    head: Result<Vec<u8>, String>,
    body: Result<Vec<u8>, String>,
) -> (r: Result<Job, String>)
    ensures
        cmd_unlock_starts(pw_bytes(pw), head, body, r),
{
    match pw {
        None => Err(String::from_str("missing password argument")),
        Some(p) => match head {
            Err(e) => Err(e),
            Ok(h) => match read_vault_salt(h.as_slice()) {
                Err(e) => Err(e),
                Ok(salt) => flatten(unlock(&salt, h.as_slice(), body, p.as_bytes())),
            },
        },
    }
}

// ── what is printed ──

/// What is printed of a command that succeeded with a number of files.
pub open spec fn done_text(c: Command, n: nat) -> Seq<char> {
    match c {
        Command::Status => ""@,
        Command::Encrypt => "encrypted "@ + decimal(n) + " file(s) (full mode)"@,
        Command::EncryptSimple => "encrypted "@ + decimal(n) + " file(s) (simple ADS mode)"@,
        Command::Decrypt => "decrypted "@ + decimal(n) + " file(s)"@,
    }
}

/// What is printed of a command that succeeded with a number of files.
pub fn done_message(c: Command, n: usize) -> (s: String)
    ensures
        s@ == done_text(c, n as nat),
{
    match c {
        Command::Status => String::from_str(""),
        Command::Encrypt => {
            let mut s = String::from_str("encrypted ");
            s.append(decimal_text(n).as_str());
            s.append(" file(s) (full mode)");
            s
        },
        Command::EncryptSimple => {
            let mut s = String::from_str("encrypted ");
            s.append(decimal_text(n).as_str());
            s.append(" file(s) (simple ADS mode)");
            s
        },
        Command::Decrypt => {
            let mut s = String::from_str("decrypted ");
            s.append(decimal_text(n).as_str());
            s.append(" file(s)");
            s
        },
    }
}

/// How the program ends: a line on standard output or on standard error, whether the
/// usage follows it on standard error, and the exit code. `S` is the type of texts.
#[derive(PartialEq, Eq, Debug)]
pub struct Exit<S> {
    /// The line on standard output.
    pub out: Option<S>,
    /// The line on standard error.
    pub err: Option<S>,
    /// Is the usage shown?
    pub usage: bool,
    /// The exit code.
    pub code: i32,
}

/// A line as a text.
pub open spec fn line_view(s: Option<String>) -> Option<Seq<char>> {
    match s {
        Some(t) => Some(t@),
        None => None,
    }
}

/// An end as texts.
pub open spec fn exit_view(e: Exit<String>) -> Exit<Seq<char>> {
    Exit { out: line_view(e.out), err: line_view(e.err), usage: e.usage, code: e.code }
}

/// How the program ends where no known command was given.
pub fn refuse(unknown: Option<&str>) -> (e: Exit<String>)
    ensures
        exit_view(e) == (Exit {
            out: None,
            err: match unknown {
                Some(cmd) => Some("unknown command: "@ + cmd@),
                None => None,
            },
            usage: true,
            code: 2,
        }),
{
    match unknown {
        Some(cmd) => Exit {
            out: None,
            err: Some(String::from_str("unknown command: ").concat(cmd)),
            usage: true,
            code: 2,
        },
        None => Exit { out: None, err: None, usage: true, code: 2 },
    }
}

/// How the program ends with the result of a command.
pub fn conclude(result: Result<String, String>) -> (e: Exit<String>)
    ensures
        exit_view(e) == match result {
            Ok(m) => Exit { out: Some(m@), err: None, usage: false, code: 0 },
            Err(f) => Exit { out: None, err: Some("error: "@ + f@), usage: false, code: 1 },
        },
{
    match result {
        Ok(m) => Exit { out: Some(m), err: None, usage: false, code: 0 },
        Err(f) => Exit {
            out: None,
            err: Some(String::from_str("error: ").concat(f.as_str())),
            usage: false,
            code: 1,
        },
    }
}

// ── laws ──

/// Each command is known by its own word and by no other, the password is the argument
/// behind it, and a word that is not known is given back.
pub proof fn arguments_mean_what_they_say(args: &Vec<String>, r: Request<String>)
    requires
        call_ensures(parse_args, (args,), r),
    ensures
        args@.len() < 2 <==> r is Nothing,
        args@.len() >= 2 ==> {
            let word = args@[1]@;
            &&& word == "status"@ <==> (r matches Request::Run(Command::Status, _))
            &&& word == "encrypt"@ <==> (r matches Request::Run(Command::Encrypt, _))
            &&& word == "encrypt-simple"@ <==> (r matches Request::Run(Command::EncryptSimple, _))
            &&& word == "decrypt"@ <==> (r matches Request::Run(Command::Decrypt, _))
            &&& r matches Request::Unknown(given) ==> given@ == word
        },
        r matches Request::Run(_, pw) ==> {
            &&& args@.len() == 2 ==> pw is None
            &&& args@.len() > 2 ==> (pw matches Some(p) && p@ == args@[2]@)
        },
{
    commands_are_found(Command::Status);
    commands_are_found(Command::Encrypt);
    commands_are_found(Command::EncryptSimple);
    commands_are_found(Command::Decrypt);
    assert(request_view(r) == requested(args@));
}

/// A folder is told to be locked exactly where a file has the name of the vault.
pub proof fn status_tells_of_the_vault(at_vault: Option<EntryKind>, s: String)
    requires
        call_ensures(cmd_status, (at_vault,), s),
    ensures
        at_vault == Some(EntryKind::File) <==> s@.len() >= 6 && s@.take(6) == "locked"@,
        at_vault != Some(EntryKind::File) <==> s@.len() >= 8 && s@.take(8) == "unlocked"@,
{
    reveal_strlit("locked");
    reveal_strlit("unlocked");
    reveal_strlit("locked (encrypted vault present)");
    reveal_strlit("unlocked (no vault present)");
    if at_vault == Some(EntryKind::File) {
        assert(s@.take(6) =~= "locked"@);
        assert(s@.take(8)[0] == 'l');
    } else {
        assert(s@.take(8) =~= "unlocked"@);
        assert(s@.take(6)[0] == 'u');
    }
}

/// A command that needs a password does nothing without one.
pub proof fn password_is_needed(
    listing: Result<Listing, String>,
    head: Result<Vec<u8>, String>,
    body: Result<Vec<u8>, String>,
    r: Result<Job, String>,
)
    requires
        ({
            ||| call_ensures(cmd_encrypt, (None::<&str>, listing), r)
            ||| call_ensures(cmd_encrypt_simple, (None::<&str>, listing), r)
            ||| call_ensures(cmd_decrypt, (None::<&str>, head, body), r)
        }),
    ensures
        r matches Err(e) && e@ == "missing password argument"@,
{
}

/// What could not be read of a folder or of its vault is reported as it is.
pub proof fn unread_folder_is_reported(
    pw: &str,
    listing: Result<Listing, String>,
    head: Result<Vec<u8>, String>,
    body: Result<Vec<u8>, String>,
    lock: Result<Job, String>,
    unlock: Result<Job, String>,
)
    requires
        call_ensures(cmd_encrypt, (Some(pw), listing), lock) || call_ensures(
            cmd_encrypt_simple,
            (Some(pw), listing),
            lock,
        ),
        call_ensures(cmd_decrypt, (Some(pw), head, body), unlock),
        vstd::utf8::encode_utf8(pw@).len() <= 0xFFFF_FFFF,
    ensures
        listing matches Err(e) ==> (lock matches Err(f) && f@ == e@),
        head matches Err(e) ==> (unlock matches Err(f) && f@ == e@),
        head matches Ok(h) ==> {
            &&& h@.len() < 17 ==> unlock is Err
            &&& h@.len() >= 17 ==> (body matches Err(e) ==> (unlock matches Err(f) && f@ == e@))
        },
{
    let p = vstd::utf8::encode_utf8(pw@);
    if let Err(e) = listing {
        assert(lock_gives_with_some_salt(EncryptMode::Full, listing, p, lock)
            || lock_gives_with_some_salt(EncryptMode::Simple, listing, p, lock));
    }
}

/// What is printed of a success names the number of files, and says whether they were
/// encrypted fully, encrypted simply, or decrypted.
pub proof fn success_is_told(c: Command, n: usize, s: String)
    requires
        call_ensures(done_message, (c, n), s),
        c != Command::Status,
    ensures
        holds(s@, decimal(n as nat)),
        s@.take(9) == if c == Command::Decrypt {
            "decrypted"@
        } else {
            "encrypted"@
        },
        c == Command::Encrypt ==> ends_with(s@, "(full mode)"@),
        c == Command::EncryptSimple ==> ends_with(s@, "(simple ADS mode)"@),
{
    reveal_strlit("encrypted");
    reveal_strlit("decrypted");
    reveal_strlit("encrypted ");
    reveal_strlit("decrypted ");
    reveal_strlit("(full mode)");
    reveal_strlit("(simple ADS mode)");
    reveal_strlit(" file(s) (full mode)");
    reveal_strlit(" file(s) (simple ADS mode)");
    reveal_strlit(" file(s)");
    assert(s@.subrange(10, 10int + decimal(n as nat).len()) =~= decimal(n as nat));
    assert(holds_at(s@, decimal(n as nat), 10));
    assert(s@.take(9) =~= if c == Command::Decrypt {
        "decrypted"@
    } else {
        "encrypted"@
    });
    if c == Command::Encrypt {
        assert(s@.skip(s@.len() - 11) =~= "(full mode)"@);
    }
    if c == Command::EncryptSimple {
        assert(s@.skip(s@.len() - 17) =~= "(simple ADS mode)"@);
    }
}

/// The program ends with 0 exactly where its command succeeded, and prints what came of
/// it: the message on standard output, or the failure on standard error.
pub proof fn exit_tells_success(result: Result<String, String>, e: Exit<String>)
    requires
        call_ensures(conclude, (result,), e),
    ensures
        result is Ok <==> e.code == 0,
        result is Err <==> e.code == 1,
        !e.usage,
        result matches Ok(m) ==> e.err is None && (e.out matches Some(line) && line@ == m@),
        result matches Err(f) ==> e.out is None && (e.err matches Some(line) && ends_with(
            line@,
            f@,
        )),
{
    if let Err(f) = result {
        let line = "error: "@ + f@;
        assert(line.skip(line.len() - f@.len()) =~= f@);
    }
}

/// A program that was given no command, or one that is not known, shows how it is used
/// and ends with 2; a word that is not known is named.
pub proof fn refusal_shows_the_usage(unknown: Option<&str>, e: Exit<String>)
    requires
        call_ensures(refuse, (unknown,), e),
    ensures
        e.code == 2,
        e.usage,
        e.out is None,
        unknown is None ==> e.err is None,
        unknown matches Some(word) ==> (e.err matches Some(line) && ends_with(line@, word@)),
{
    if let Some(word) = unknown {
        let line = "unknown command: "@ + word@;
        assert(line.skip(line.len() - word@.len()) =~= word@);
    }
}

/// The usage names every command.
pub proof fn usage_names_the_commands(s: &'static str)
    requires
        call_ensures(usage, (), s),
    ensures
        holds(s@, "status"@),
        holds(s@, "encrypt <pw>"@),
        holds(s@, "encrypt-simple <pw>"@),
        holds(s@, "decrypt <pw>"@),
{
    let u = "usage: flock_cli <status|encrypt <pw>|encrypt-simple <pw>|decrypt <pw>>"@;
    reveal_strlit("usage: flock_cli <status|encrypt <pw>|encrypt-simple <pw>|decrypt <pw>>");
    reveal_strlit("status");
    reveal_strlit("encrypt <pw>");
    reveal_strlit("encrypt-simple <pw>");
    reveal_strlit("decrypt <pw>");
    assert(u.subrange(18, 24) =~= "status"@);
    assert(holds_at(u, "status"@, 18));
    assert(u.subrange(25, 37) =~= "encrypt <pw>"@);
    assert(holds_at(u, "encrypt <pw>"@, 25));
    assert(u.subrange(38, 57) =~= "encrypt-simple <pw>"@);
    assert(holds_at(u, "encrypt-simple <pw>"@, 38));
    assert(u.subrange(58, 70) =~= "decrypt <pw>"@);
    assert(holds_at(u, "decrypt <pw>"@, 58));
}

} // verus!
