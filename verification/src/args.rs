//! The program arguments as text.
use vstd::prelude::*;
use vstd::utf8::*;
use crate::text::str_from_utf8;

verus! {

/// The argument list kept from the raw arguments `args`: arguments that are not UTF-8
/// are left out, at most `max_args` are kept, and an argument longer than `max_len`
/// bytes is kept empty (it does not fit its room).
pub open spec fn kept_args(args: Seq<Seq<u8>>, max_args: int, max_len: int) -> Seq<Seq<char>>
    decreases args.len(),
{
    if args.len() == 0 {
        seq![]
    } else {
        let prev = kept_args(args.drop_last(), max_args, max_len);
        let b = args.last();
        if !valid_utf8(b) || prev.len() >= max_args {
            prev
        } else if b.len() <= max_len {
            prev.push(decode_utf8(b))
        } else {
            prev.push(seq![])
        }
    }
}

/// The texts of a list of strings.
pub open spec fn texts(v: Seq<String>) -> Seq<Seq<char>> {
    Seq::new(v.len(), |i: int| v[i]@)
}

/// The program arguments (each given by its bytes) as strings, as `kept_args` says.
pub fn args_from_bytes(args: &[&[u8]], max_args: usize, max_len: usize) -> (r: Vec<String>)
    ensures
        texts(r@) == kept_args(Seq::new(args@.len(), |i: int| args@[i]@), max_args as int, max_len as int),
{
    let ghost a = Seq::new(args@.len(), |i: int| args@[i]@);
    let mut out: Vec<String> = Vec::new();
    let mut i: usize = 0;
    assert(a.take(0) =~= Seq::<Seq<u8>>::empty());
    assert(texts(out@) =~= Seq::<Seq<char>>::empty());
    while i < args.len()
        invariant
            i <= args@.len(),
            a == Seq::new(args@.len(), |i: int| args@[i]@),
            texts(out@) == kept_args(a.take(i as int), max_args as int, max_len as int),
        decreases args@.len() - i,
    {
        assert(a.take(i + 1).drop_last() =~= a.take(i as int));
        assert(a.take(i + 1).last() == args@[i as int]@);
        let b = args[i];
        let ghost before = texts(out@);
        match str_from_utf8(b) {
            Some(s) => {
                proof {
                    decode_utf8_encode_utf8(b@);
                    encode_utf8_decode_utf8(s@);
                }
                if out.len() < max_args {
                    if b.len() <= max_len {
                        out.push(s.to_owned());
                    } else {
                        out.push(String::new());
                    }
                    assert(texts(out@) =~= before.push(out@.last()@));
                }
            },
            None => {},
        }
        i = i + 1;
    }
    assert(a.take(args@.len() as int) =~= a);
    out
}

} // verus!
