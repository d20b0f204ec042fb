use vstd::prelude::*;

verus! {

use vstd::utf8::encode_utf8;
use crate::content::ContentV;
use crate::content::fresh_content;
use crate::content::is_expired;
use crate::db::Db;
use crate::error::DBError;
use crate::parser::fits_i64;
use crate::parser::int_token_val;
use crate::parser::is_int_token;
use crate::parser::parse_int;
use crate::res::Val;
use crate::res::ValV;
use vstd::string::StrSliceExecFns;

/// ASCII lower-case letters folded to upper case; all else untouched.
pub open spec fn fold_upper(b: u8) -> u8 {
    if 97 <= b <= 122 {
        (b - 32) as u8
    } else {
        b
    }
}

/// A byte sequence folded to ASCII upper case.
pub open spec fn upper_bytes(s: Seq<u8>) -> Seq<u8> {
    Seq::new(s.len(), |i: int| fold_upper(s[i]))
}

/// The case-insensitive match against the option keyword `EX`.
pub open spec fn is_ex(s: Seq<char>) -> bool {
    upper_bytes(encode_utf8(s)) == seq![69u8, 88u8]
}

/// Folds one byte to ASCII upper case.
pub fn fold_upper_exec(b: u8) -> (r: u8)
    ensures
        r == fold_upper(b),
{
    if 97 <= b && b <= 122 {
        b - 32
    } else {
        b
    }
}

/// Tests a string against the option keyword `EX`, case-insensitively.
pub fn is_ex_str(s: &str) -> (r: bool)
    ensures
        r == is_ex(s@),
{
    let bs = s.as_bytes();
    let ghost u = upper_bytes(encode_utf8(s@));
    if bs.len() != 2 {
        proof {
            assert(u.len() == bs@.len());
        }
        return false;
    }
    let u0 = fold_upper_exec(*vstd::slice::slice_index_get(bs, 0));
    let u1 = fold_upper_exec(*vstd::slice::slice_index_get(bs, 1));
    if u0 == 69 && u1 == 88 {
        proof {
            assert(u =~= seq![69u8, 88u8]);
        }
        true
    } else {
        proof {
            assert(u[0] == u0 && u[1] == u1);
        }
        false
    }
}

/// What a lookup replies: the stored text as a bulk string while the record
/// is live, a null bulk string when the key is absent or expired.
pub open spec fn get_reply(m: Map<Seq<char>, ContentV>, k: Seq<char>, now: int) -> ValV {
    if m.contains_key(k) && !is_expired(m[k], now) {
        ValV::BulkString(m[k].value)
    } else {
        ValV::NullString
    }
}

/// What a lookup leaves behind: an expired record is evicted, all else stays.
pub open spec fn get_map(
    m: Map<Seq<char>, ContentV>,
    k: Seq<char>,
    now: int,
) -> Map<Seq<char>, ContentV> {
    if m.contains_key(k) && is_expired(m[k], now) {
        m.remove(k)
    } else {
        m
    }
}

/// The time-to-live a set request carries: zero when no `EX` option is
/// given, the parsed seconds when it is, and nothing when the option is
/// malformed or its seconds are missing, unparseable or negative.
pub open spec fn ttl_arg(dv: Seq<Seq<char>>) -> Option<int> {
    if dv.len() <= 2 {
        Some(0int)
    } else if !is_ex(dv[2]) {
        Some(0int)
    } else if dv.len() <= 3 {
        None
    } else {
        let tok = encode_utf8(dv[3]);
        if is_int_token(tok) && fits_i64(int_token_val(tok)) && int_token_val(tok) >= 0 {
            Some(int_token_val(tok))
        } else {
            None
        }
    }
}

/// How a run of delete requests folds over the store: the store after all
/// the keys are gone, and how many of them were actually present.
pub open spec fn del_fold(m: Map<Seq<char>, ContentV>, ks: Seq<Seq<char>>) -> (
    Map<Seq<char>, ContentV>,
    int,
)
    decreases ks.len(),
{
    if ks.len() == 0 {
        (m, 0int)
    } else {
        let hit: int = if m.contains_key(ks[0]) {
            1
        } else {
            0
        };
        let rest = del_fold(m.remove(ks[0]), ks.drop_first());
        (rest.0, hit + rest.1)
    }
}

/// Serves a get request: replies the stored text, or a null bulk string for
/// an absent or expired key; a missing key argument is an invalid argument.
pub fn get(args: Vec<String>, db: &mut Db, now: i64) -> (r: Result<Val, DBError>)
    requires
        old(db).inv(),
    ensures
        final(db).inv(),
        args.deep_view().len() == 0 ==> r == Err::<Val, DBError>(DBError::InvalidArg)
            && final(db)@ == old(db)@,
        args.deep_view().len() >= 1 ==> (r matches Ok(v) && v@ == get_reply(
            old(db)@,
            args.deep_view()[0],
            now as int,
        )) && final(db)@ == get_map(old(db)@, args.deep_view()[0], now as int),
{
    if args.len() == 0 {
        return Err(DBError::InvalidArg);
    }
    match db.get_at(args[0].as_str(), now) {
        Ok(Some(c)) => Ok(Val::BulkString(c.value)),
        Ok(None) => {
            proof {
                assert(false);
            }
            Ok(Val::NullString())
        },
        Err(DBError::NotFound) => Ok(Val::NullString()),
        Err(DBError::Expired) => Ok(Val::NullString()),
        Err(_) => {
            proof {
                assert(false);
            }
            Err(DBError::Internal)
        },
    }
}

/// Serves a set request: stores the value under the key, with the seconds
/// of a well-formed `EX` option as its time-to-live; replies `OK`.
pub fn set(args: Vec<String>, db: &mut Db, now: i64) -> (r: Result<Val, DBError>)
    requires
        old(db).inv(),
    ensures
        final(db).inv(),
        args.deep_view().len() < 2 ==> r == Err::<Val, DBError>(DBError::InvalidArg) && final(db)@
            == old(db)@,
        args.deep_view().len() >= 2 && ttl_arg(args.deep_view()) is None ==> r == Err::<
            Val,
            DBError,
        >(DBError::InvalidArg) && final(db)@ == old(db)@,
        args.deep_view().len() >= 2 ==> (ttl_arg(args.deep_view()) matches Some(t) ==> (r matches Ok(
            v,
        ) && v@ == ValV::SimpleString("OK"@)) && final(db)@ == old(db)@.insert(
            args.deep_view()[0],
            fresh_content(args.deep_view()[0], args.deep_view()[1], t, now as int),
        )),
{
    if args.len() < 2 {
        return Err(DBError::InvalidArg);
    }
    let ttl: u64 = if args.len() >= 3 {
        if is_ex_str(args[2].as_str()) {
            if args.len() >= 4 {
                match parse_int(args[3].as_str().as_bytes()) {
                    Ok(v) => {
                        if v >= 0 {
                            v as u64
                        } else {
                            return Err(DBError::InvalidArg);
                        }
                    },
                    Err(_) => {
                        return Err(DBError::InvalidArg);
                    },
                }
            } else {
                return Err(DBError::InvalidArg);
            }
        } else {
            0
        }
    } else {
        0
    };
    let value = args[1].clone();
    let _stored = db.set_at(args[0].as_str(), value, ttl, now);
    Ok(Val::SimpleString("OK".to_owned()))
}

/// Serves a delete run: removes each named key and replies how many were
/// actually present; no key at all is an invalid argument.
pub fn del(args: Vec<String>, db: &mut Db) -> (r: Result<Val, DBError>)
    requires
        old(db).inv(),
        args.deep_view().len() <= 9223372036854775807,
    ensures
        final(db).inv(),
        args.deep_view().len() == 0 ==> r == Err::<Val, DBError>(DBError::InvalidArg)
            && final(db)@ == old(db)@,
        args.deep_view().len() >= 1 ==> (r matches Ok(v) && v@ == ValV::Int(
            del_fold(old(db)@, args.deep_view()).1,
        )) && final(db)@ == del_fold(old(db)@, args.deep_view()).0,
{
    if args.len() == 0 {
        return Err(DBError::InvalidArg);
    }
    let ghost dv = args.deep_view();
    proof {
        assert(dv.skip(0) =~= dv);
    }
    let n = args.len();
    let mut count: i64 = 0;
    let mut i: usize = 0;
    while i < n
        invariant
            db.inv(),
            n == dv.len(),
            n == args@.len(),
            dv == args.deep_view(),
            n <= 9223372036854775807,
            i <= n,
            0 <= count <= i,
            del_fold(old(db)@, dv).0 == del_fold(db@, dv.skip(i as int)).0,
            del_fold(old(db)@, dv).1 == count + del_fold(db@, dv.skip(i as int)).1,
        decreases n - i,
    {
        let ghost pre = db@;
        let ghost rest = dv.skip(i as int);
        proof {
            assert(rest[0] == dv[i as int]);
            assert(rest.drop_first() =~= dv.skip(i as int + 1));
        }
        match db.del(args[i].as_str()) {
            Ok(()) => {
                count = count + 1;
            },
            Err(DBError::NotFound) => {
                proof {
                    assert(pre.remove(dv[i as int]) =~= pre);
                }
            },
            Err(_) => {
                proof {
                    assert(false);
                }
            },
        }
        i = i + 1;
    }
    proof {
        assert(dv.skip(n as int).len() == 0);
    }
    Ok(Val::Int(count))
}

/// Serves a quit request: acknowledges; the connection closes afterwards.
pub fn quit() -> (r: Val)
    ensures
        r@ == ValV::SimpleString("OK"@),
{
    Val::SimpleString("OK".to_owned())
}

/// Serves a ping request.
pub fn ping() -> (r: Val)
    ensures
        r@ == ValV::SimpleString("PONG"@),
{
    Val::SimpleString("PONG".to_owned())
}

/// Serves an echo request: replies the first argument as a bulk string, or
/// a null bulk string when none is given.
pub fn echo(args: Vec<String>) -> (r: Val)
    ensures
        args.deep_view().len() >= 1 ==> r@ == ValV::BulkString(args.deep_view()[0]),
        args.deep_view().len() == 0 ==> r@ == ValV::NullString,
{
    if args.len() >= 1 {
        Val::BulkString(args[0].clone())
    } else {
        Val::NullString()
    }
}

} // verus!
