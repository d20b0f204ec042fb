use vstd::prelude::*;

verus! {

use vstd::utf8::encode_utf8;
use crate::cmds;
use crate::cmds::del_fold;
use crate::cmds::fold_upper_exec;
use crate::cmds::get_map;
use crate::cmds::get_reply;
use crate::cmds::ttl_arg;
use crate::cmds::upper_bytes;
use crate::content::ContentV;
use crate::content::fresh_content;
use crate::db::Db;
use crate::error::DBError;
use crate::error::err_text;
use crate::parser::DecS;
use crate::parser::Parsed;
use crate::parser::command_shape_ok;
use crate::parser::dec_msg;
use crate::parser::decode;
use crate::parser::lemma_dec_msg_arr_len;
use crate::parser::parse_command;
use crate::parser::str_of;
use crate::res::Val;
use crate::res::ValV;
use crate::res::enc;
use vstd::slice::slice_index_get;
use vstd::string::StrSliceExecFns;

/// The closed set of commands the server recognizes.
pub enum Command {
    CmdGet,
    CmdSet,
    CmdDel,
    CmdPing,
    CmdEcho,
    CmdQuit,
}

/// The command a name denotes, matched case-insensitively, if any.
pub open spec fn cmd_of(name: Seq<char>) -> Option<Command> {
    let u = upper_bytes(encode_utf8(name));
    if u == seq![71u8, 69u8, 84u8] {
        Some(Command::CmdGet)
    } else if u == seq![83u8, 69u8, 84u8] {
        Some(Command::CmdSet)
    } else if u == seq![68u8, 69u8, 76u8] {
        Some(Command::CmdDel)
    } else if u == seq![80u8, 73u8, 78u8, 71u8] {
        Some(Command::CmdPing)
    } else if u == seq![69u8, 67u8, 72u8, 79u8] {
        Some(Command::CmdEcho)
    } else if u == seq![81u8, 85u8, 73u8, 84u8] {
        Some(Command::CmdQuit)
    } else {
        None
    }
}

/// Maps a command name to the command it denotes.
pub fn command_of(name: &str) -> (r: Option<Command>)
    ensures
        r == cmd_of(name@),
{
    let bs = name.as_bytes();
    let ghost u = upper_bytes(encode_utf8(name@));
    proof {
        assert(u.len() == bs@.len());
    }
    if bs.len() == 3 {
        let u0 = fold_upper_exec(*slice_index_get(bs, 0));
        let u1 = fold_upper_exec(*slice_index_get(bs, 1));
        let u2 = fold_upper_exec(*slice_index_get(bs, 2));
        proof {
            assert(u =~= seq![u0, u1, u2]);
        }
        if u0 == 71 && u1 == 69 && u2 == 84 {
            Some(Command::CmdGet)
        } else if u0 == 83 && u1 == 69 && u2 == 84 {
            Some(Command::CmdSet)
        } else if u0 == 68 && u1 == 69 && u2 == 76 {
            Some(Command::CmdDel)
        } else {
            None
        }
    } else if bs.len() == 4 {
        let u0 = fold_upper_exec(*slice_index_get(bs, 0));
        let u1 = fold_upper_exec(*slice_index_get(bs, 1));
        let u2 = fold_upper_exec(*slice_index_get(bs, 2));
        let u3 = fold_upper_exec(*slice_index_get(bs, 3));
        proof {
            assert(u =~= seq![u0, u1, u2, u3]);
        }
        if u0 == 80 && u1 == 73 && u2 == 78 && u3 == 71 {
            Some(Command::CmdPing)
        } else if u0 == 69 && u1 == 67 && u2 == 72 && u3 == 79 {
            Some(Command::CmdEcho)
        } else if u0 == 81 && u1 == 85 && u2 == 73 && u3 == 84 {
            Some(Command::CmdQuit)
        } else {
            None
        }
    } else {
        None
    }
}

/// What a named command with the given arguments does to the store and
/// replies: the reply value, the store afterwards, and whether the
/// connection is to close. A missing or malformed argument is answered
/// with an error value and leaves the store alone.
pub open spec fn execute_spec(
    c: Option<Command>,
    dv: Seq<Seq<char>>,
    m: Map<Seq<char>, ContentV>,
    now: int,
) -> (ValV, Map<Seq<char>, ContentV>, bool) {
    match c {
        None => (ValV::Error(err_text(DBError::InvalidArg)), m, false),
        Some(Command::CmdPing) => (ValV::SimpleString("PONG"@), m, false),
        Some(Command::CmdQuit) => (ValV::SimpleString("OK"@), m, true),
        Some(Command::CmdEcho) => (
            if dv.len() >= 1 {
                ValV::BulkString(dv[0])
            } else {
                ValV::NullString
            },
            m,
            false,
        ),
        Some(Command::CmdGet) => if dv.len() == 0 {
            (ValV::Error(err_text(DBError::InvalidArg)), m, false)
        } else {
            (get_reply(m, dv[0], now), get_map(m, dv[0], now), false)
        },
        Some(Command::CmdSet) => if dv.len() < 2 {
            (ValV::Error(err_text(DBError::InvalidArg)), m, false)
        } else {
            match ttl_arg(dv) {
                None => (ValV::Error(err_text(DBError::InvalidArg)), m, false),
                Some(t) => (
                    ValV::SimpleString("OK"@),
                    m.insert(dv[0], fresh_content(dv[0], dv[1], t, now)),
                    false,
                ),
            }
        },
        Some(Command::CmdDel) => if dv.len() == 0 {
            (ValV::Error(err_text(DBError::InvalidArg)), m, false)
        } else {
            (ValV::Int(del_fold(m, dv).1), del_fold(m, dv).0, false)
        },
    }
}

/// Dispatches one named command against the store. Every failure is
/// turned into a client-visible error value; nothing escapes as a crash.
pub fn execute(name: &str, args: Vec<String>, db: &mut Db, now: i64) -> (r: (Val, bool))
    requires
        old(db).inv(),
        args.deep_view().len() <= 9223372036854775807,
    ensures
        final(db).inv(),
        ({
            let s = execute_spec(cmd_of(name@), args.deep_view(), old(db)@, now as int);
            r.0@ == s.0 && final(db)@ == s.1 && r.1 == s.2
        }),
{
    match command_of(name) {
        None => (Val::Error(DBError::InvalidArg.message()), false),
        Some(Command::CmdPing) => (cmds::ping(), false),
        Some(Command::CmdQuit) => (cmds::quit(), true),
        Some(Command::CmdEcho) => (cmds::echo(args), false),
        Some(Command::CmdGet) => match cmds::get(args, db, now) {
            Ok(v) => (v, false),
            Err(e) => (Val::Error(e.message()), false),
        },
        Some(Command::CmdSet) => match cmds::set(args, db, now) {
            Ok(v) => (v, false),
            Err(e) => (Val::Error(e.message()), false),
        },
        Some(Command::CmdDel) => match cmds::del(args, db) {
            Ok(v) => (v, false),
            Err(e) => (Val::Error(e.message()), false),
        },
    }
}

/// The arguments a well-shaped request carries, in order.
pub open spec fn args_of(items: Seq<ValV>) -> Seq<Seq<char>> {
    Seq::new((items.len() - 1) as nat, |i: int| str_of(items[i + 1]).unwrap())
}

/// What one decoded request does: an ill-shaped request is answered with
/// an invalid-argument error; a well-shaped one runs its command.
pub open spec fn respond_spec(m: ValV, db0: Map<Seq<char>, ContentV>, now: int) -> (
    ValV,
    Map<Seq<char>, ContentV>,
    bool,
) {
    if !command_shape_ok(m) {
        (ValV::Error(err_text(DBError::InvalidArg)), db0, false)
    } else {
        execute_spec(cmd_of(str_of(m->Arr_0[0]).unwrap()), args_of(m->Arr_0), db0, now)
    }
}

/// One turn of the connection state machine, after bytes have been read:
/// either the buffer still lacks a complete frame, or it is malformed and
/// the connection is to close after an error reply, or one request is
/// consumed and answered.
pub enum Step {
    Reply(usize, Vec<u8>, bool),
    NeedMore,
    Corrupt(Vec<u8>),
}

/// Decodes one request out of the buffered bytes, runs it against the
/// store, and encodes the reply. Consumes exactly the decoded frame's
/// bytes. Purely a function of the buffer, the store and the clock: it
/// does no reading or writing of its own.
pub fn handle_buffer(db: &mut Db, buf: &[u8], now: i64) -> (r: Step)
    requires
        old(db).inv(),
        buf@.len() <= 9223372036854775807,
    ensures
        final(db).inv(),
        match dec_msg(buf@, 0) {
            DecS::Done(m, end) => r matches Step::Reply(c, out, close) && c as int == end && ({
                let s = respond_spec(m, old(db)@, now as int);
                out@ == enc(s.0) && final(db)@ == s.1 && close == s.2
            }),
            DecS::More => r is NeedMore && final(db)@ == old(db)@,
            DecS::Bad => r matches Step::Corrupt(out) && out@ == enc(
                ValV::Error(err_text(DBError::ParseError)),
            ) && final(db)@ == old(db)@,
        },
{
    match decode(buf) {
        Parsed::Incomplete => Step::NeedMore,
        Parsed::Malformed => {
            let out = Val::Error(DBError::ParseError.message()).serialize_bytes();
            Step::Corrupt(out)
        },
        Parsed::Complete(v, end) => {
            let ghost m = v@;
            match parse_command(v) {
                Err(_) => {
                    let out = Val::Error(DBError::InvalidArg.message()).serialize_bytes();
                    Step::Reply(end, out, false)
                },
                Ok((name, args)) => {
                    proof {
                        lemma_dec_msg_arr_len(buf@, 0);
                        assert(args.deep_view() =~= args_of(m->Arr_0));
                    }
                    let (val, close) = execute(name.as_str(), args, db, now);
                    let out = val.serialize_bytes();
                    Step::Reply(end, out, close)
                },
            }
        },
    }
}

} // verus!
