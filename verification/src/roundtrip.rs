//! What loading gives back of what encoding writes.
use vstd::prelude::*;
use crate::bytes::{i64_at, i64_bytes, lemma_i64_roundtrip, lemma_u32_roundtrip, u32_at, u32_bytes};
use crate::encode::{
    code_section, consts_bytes, consts_section, extra_codes, funcs_section, magic_bytes, records,
    spec_encode_module, spec_encode_simple, strings_section, utf8_items,
};
use crate::loader::{
    extra_fn, finish, main_fn, spec_body, spec_consts, spec_funcs, spec_load, spec_strings, spec_trailers,
    text_of, TrailerState,
};
use crate::module::FnModel;
use crate::decode::spec_decode_all;

verus! {

proof fn lemma_u32_in(input: Seq<u8>, off: int, v: u32)
    requires
        0 <= off,
        off + 4 <= input.len(),
        input.subrange((off) as int, (off + 4) as int) == u32_bytes(v),
    ensures
        u32_at(input, off) == v,
{
    lemma_u32_roundtrip(v);
    assert(input[off] == u32_bytes(v)[0]);
    assert(input[off + 1] == u32_bytes(v)[1]);
    assert(input[off + 2] == u32_bytes(v)[2]);
    assert(input[off + 3] == u32_bytes(v)[3]);
}

proof fn lemma_consts_bytes_at(c: Seq<i64>, i: int)
    requires
        0 <= i < c.len(),
    ensures
        consts_bytes(c).len() == 8 * c.len(),
        consts_bytes(c).subrange((8 * i) as int, (8 * i + 8) as int) == i64_bytes(c[i]),
    decreases c.len(),
{
    lemma_consts_len(c);
    if i < c.len() - 1 {
        lemma_consts_bytes_at(c.drop_last(), i);
        assert(consts_bytes(c).subrange((8 * i) as int, (8 * i + 8) as int) =~= consts_bytes(c.drop_last()).subrange((8 * i) as int, (8 * i + 8) as int));
    } else {
        lemma_consts_len(c.drop_last());
        assert(consts_bytes(c).subrange((8 * i) as int, (8 * i + 8) as int) =~= i64_bytes(c[i]));
    }
}

proof fn lemma_consts_len(c: Seq<i64>)
    ensures
        consts_bytes(c).len() == 8 * c.len(),
    decreases c.len(),
{
    if c.len() > 0 {
        lemma_consts_len(c.drop_last());
    }
}

proof fn lemma_consts_read(input: Seq<u8>, off: nat, c: Seq<i64>)
    requires
        off + 8 * c.len() <= input.len(),
        input.subrange(off as int, (off + 8 * c.len()) as int) == consts_bytes(c),
    ensures
        spec_consts(input, off, c.len()) == c,
{
    lemma_consts_len(c);
    assert forall|i: int| 0 <= i < c.len() implies #[trigger] spec_consts(input, off, c.len())[i] == c[i] by {
        lemma_consts_bytes_at(c, i);
        let b = i64_bytes(c[i]);
        assert(input.subrange((off + 8 * i) as int, (off + 8 * i + 8) as int) =~= b) by {
            assert forall|k: int| 0 <= k < 8 implies input[off + 8 * i + k] == b[k] by {
                assert(input.subrange(off as int, (off + 8 * c.len()) as int)[8 * i + k] == consts_bytes(c)[8 * i + k]);
                assert(consts_bytes(c).subrange((8 * i) as int, (8 * i + 8) as int)[k] == consts_bytes(c)[8 * i + k]);
            }
        }
        lemma_i64_roundtrip(c[i]);
        let o = off + 8 * i;
        assert(input[o] == b[0] && input[o + 1] == b[1] && input[o + 2] == b[2] && input[o + 3] == b[3]
            && input[o + 4] == b[4] && input[o + 5] == b[5] && input[o + 6] == b[6] && input[o + 7] == b[7]);
    }
    assert(spec_consts(input, off, c.len()) =~= c);
}

proof fn lemma_records_cons(x: Seq<u8>, rest: Seq<Seq<u8>>)
    ensures
        records(seq![x] + rest) == code_section(x) + records(rest),
    decreases rest.len(),
{
    if rest.len() == 0 {
        assert(seq![x] + rest =~= seq![x]);
        assert(seq![x].drop_last() =~= Seq::<Seq<u8>>::empty());
        assert(records(Seq::<Seq<u8>>::empty()) == Seq::<u8>::empty());
        assert(records(seq![x]) =~= code_section(x));
    } else {
        lemma_records_cons(x, rest.drop_last());
        assert((seq![x] + rest).drop_last() =~= seq![x] + rest.drop_last());
        assert(records(seq![x] + rest) =~= code_section(x) + records(rest));
    }
}

/// Whether every item fits a 32-bit length prefix.
pub open spec fn items_fit(items: Seq<Seq<u8>>) -> bool {
    forall|i: int| 0 <= i < items.len() ==> (#[trigger] items[i]).len() <= u32::MAX
}

proof fn lemma_strings_read(input: Seq<u8>, off: nat, strs: Seq<Seq<char>>, acc: Seq<Seq<char>>)
    requires
        items_fit(utf8_items(strs)),
        off + records(utf8_items(strs)).len() <= input.len(),
        input.subrange(off as int, (off + records(utf8_items(strs)).len()) as int) == records(utf8_items(strs)),
    ensures
        spec_strings(input, off, strs.len(), acc) == Ok::<(nat, Seq<Seq<char>>), crate::error::Error>(
            (off + records(utf8_items(strs)).len(), acc + strs)),
    decreases strs.len(),
{
    let items = utf8_items(strs);
    if strs.len() == 0 {
        assert(items =~= Seq::<Seq<u8>>::empty());
        assert(acc + strs =~= acc);
    } else {
        let s = strs[0];
        let rest = strs.subrange(1, strs.len() as int);
        let e = vstd::utf8::encode_utf8(s);
        assert(items =~= seq![e] + utf8_items(rest));
        lemma_records_cons(e, utf8_items(rest));
        let r = records(items);
        assert(items[0] == e);
        assert(input.subrange(off as int, (off + 4) as int) =~= u32_bytes(e.len() as u32)) by {
            assert forall|k: int| 0 <= k < 4 implies #[trigger] input.subrange(off as int, (off + 4) as int)[k] == u32_bytes(e.len() as u32)[k] by {
                assert(input.subrange(off as int, (off + r.len()) as int)[k] == r[k]);
            }
        }
        lemma_u32_in(input, off as int, e.len() as u32);
        let o = off + 4;
        assert(input.subrange(o as int, (o + e.len()) as int) =~= e) by {
            assert forall|k: int| 0 <= k < e.len() implies #[trigger] input.subrange(o as int, (o + e.len()) as int)[k] == e[k] by {
                assert(input.subrange(off as int, (off + r.len()) as int)[4 + k] == r[4 + k]);
            }
        }
        vstd::utf8::encode_utf8_valid_utf8(s);
        vstd::utf8::encode_utf8_decode_utf8(s);
        assert(text_of(e) == s);
        let off2 = o + e.len();
        let r2 = records(utf8_items(rest));
        assert(input.subrange(off2 as int, (off2 + r2.len()) as int) =~= r2) by {
            assert forall|k: int| 0 <= k < r2.len() implies #[trigger] input.subrange(off2 as int, (off2 + r2.len()) as int)[k] == r2[k] by {
                assert(input.subrange(off as int, (off + r.len()) as int)[4 + e.len() + k] == r[4 + e.len() + k]);
            }
        }
        assert forall|i: int| 0 <= i < utf8_items(rest).len() implies (#[trigger] utf8_items(rest)[i]).len() <= u32::MAX by {
            assert(utf8_items(rest)[i] == items[i + 1]);
        }
        lemma_strings_read(input, off2, rest, acc.push(s));
        assert(acc.push(s) + rest =~= acc + strs);
    }
}

proof fn lemma_funcs_read(input: Seq<u8>, off: nat, codes: Seq<Seq<u8>>, i: nat, acc: Seq<FnModel>)
    requires
        items_fit(codes),
        off + records(codes).len() <= input.len(),
        input.subrange(off as int, (off + records(codes).len()) as int) == records(codes),
    ensures
        spec_funcs(input, off, i, i + codes.len(), acc) == (off + records(codes).len(),
            acc + Seq::new(codes.len(), |j: int| extra_fn(codes[j], (i + j) as nat))),
    decreases codes.len(),
{
    if codes.len() == 0 {
        assert(acc + Seq::new(codes.len(), |j: int| extra_fn(codes[j], (i + j) as nat)) =~= acc);
    } else {
        let c = codes[0];
        let rest = codes.subrange(1, codes.len() as int);
        assert(codes =~= seq![c] + rest);
        lemma_records_cons(c, rest);
        let r = records(codes);
        assert(input.subrange(off as int, (off + 4) as int) =~= u32_bytes(c.len() as u32)) by {
            assert forall|k: int| 0 <= k < 4 implies #[trigger] input.subrange(off as int, (off + 4) as int)[k] == u32_bytes(c.len() as u32)[k] by {
                assert(input.subrange(off as int, (off + r.len()) as int)[k] == r[k]);
            }
        }
        lemma_u32_in(input, off as int, c.len() as u32);
        let o = off + 4;
        assert(input.subrange(o as int, (o + c.len()) as int) =~= c) by {
            assert forall|k: int| 0 <= k < c.len() implies #[trigger] input.subrange(o as int, (o + c.len()) as int)[k] == c[k] by {
                assert(input.subrange(off as int, (off + r.len()) as int)[4 + k] == r[4 + k]);
            }
        }
        let off2 = o + c.len();
        let r2 = records(rest);
        assert(input.subrange(off2 as int, (off2 + r2.len()) as int) =~= r2) by {
            assert forall|k: int| 0 <= k < r2.len() implies #[trigger] input.subrange(off2 as int, (off2 + r2.len()) as int)[k] == r2[k] by {
                assert(input.subrange(off as int, (off + r.len()) as int)[4 + c.len() + k] == r[4 + c.len() + k]);
            }
        }
        assert forall|j: int| 0 <= j < rest.len() implies (#[trigger] rest[j]).len() <= u32::MAX by {
            assert(rest[j] == codes[j + 1]);
        }
        lemma_funcs_read(input, off2, rest, i + 1, acc.push(extra_fn(c, i)));
        assert(acc.push(extra_fn(c, i)) + Seq::new(rest.len(), |j: int| extra_fn(rest[j], (i + 1 + j) as nat))
            =~= acc + Seq::new(codes.len(), |j: int| extra_fn(codes[j], (i + j) as nat)));
    }
}

/// The module the loader reports for an encoded module: the entry's code, constants and
/// strings under the name `main`, and the other functions' code as `f0`, `f1`, ...
pub open spec fn loaded_form(fs: Seq<FnModel>) -> Seq<FnModel> {
    seq![main_fn(fs[0].code, fs[0].consts, fs[0].strings)]
        + Seq::new((fs.len() - 1) as nat, |j: int| extra_fn(fs[j + 1].code, j as nat))
}

/// Whether a module fits the container format: the entry code decodes instruction by
/// instruction, every count and length fits its 32-bit field, the string pool holds at
/// most 4096 strings, and at most 64 functions follow the entry.
pub open spec fn encodable_module(fs: Seq<FnModel>) -> bool {
    &&& 1 <= fs.len() <= 65
    &&& spec_decode_all(fs[0].code) is Ok
    &&& fs[0].code.len() <= u32::MAX
    &&& fs[0].consts.len() <= u32::MAX
    &&& fs[0].strings.len() <= 4096
    &&& items_fit(utf8_items(fs[0].strings))
    &&& items_fit(extra_codes(fs))
}

proof fn lemma_piece(input: Seq<u8>, off: int, piece: Seq<u8>, whole_off: int, whole: Seq<u8>)
    requires
        0 <= whole_off <= off,
        off + piece.len() <= whole_off + whole.len(),
        whole_off + whole.len() <= input.len(),
        input.subrange((whole_off) as int, (whole_off + whole.len()) as int) == whole,
        whole.subrange((off - whole_off) as int, (off - whole_off + piece.len()) as int) == piece,
    ensures
        input.subrange((off) as int, (off + piece.len()) as int) == piece,
{
    assert(input.subrange((off) as int, (off + piece.len()) as int) =~= piece) by {
        assert forall|k: int| 0 <= k < piece.len() implies #[trigger] input.subrange((off) as int, (off + piece.len()) as int)[k] == piece[k] by {
            assert(input.subrange((whole_off) as int, (whole_off + whole.len()) as int)[off - whole_off + k] == whole[off - whole_off + k]);
            assert(whole.subrange((off - whole_off) as int, (off - whole_off + piece.len()) as int)[k] == whole[off - whole_off + k]);
        }
    }
}

/// The optional string-pool trailer of an encoded entry function.
pub open spec fn strings_part(f: FnModel) -> Seq<u8> {
    if f.strings.len() > 0 { strings_section(f.strings) } else { Seq::empty() }
}

/// The optional extra-functions trailer of an encoded module.
pub open spec fn funcs_part(fs: Seq<FnModel>) -> Seq<u8> {
    if fs.len() > 1 { funcs_section(extra_codes(fs)) } else { Seq::empty() }
}

proof fn lemma_layout(fs: Seq<FnModel>)
    requires
        fs.len() >= 1,
    ensures
        spec_encode_module(fs) == magic_bytes() + code_section(fs[0].code) + consts_section(fs[0].consts)
            + (strings_part(fs[0]) + funcs_part(fs)),
{
    assert(spec_encode_module(fs) =~= magic_bytes() + code_section(fs[0].code) + consts_section(fs[0].consts)
        + (strings_part(fs[0]) + funcs_part(fs)));
}

#[verifier::spinoff_prover]
#[verifier::rlimit(40)]
proof fn lemma_header(input: Seq<u8>, f: FnModel, rest: Seq<u8>)
    requires
        input == magic_bytes() + code_section(f.code) + consts_section(f.consts) + rest,
        f.code.len() <= u32::MAX,
        f.consts.len() <= u32::MAX,
    ensures
        spec_load(input) == spec_body(input, f.code, 12 + f.code.len(), f.consts.len()),
        spec_consts(input, 12 + f.code.len(), f.consts.len()) == f.consts,
        12 + f.code.len() + 8 * f.consts.len() + rest.len() == input.len(),
        input.subrange((12 + f.code.len() + 8 * f.consts.len()) as int, input.len() as int) == rest,
{
    lemma_consts_len(f.consts);
    let cl = f.code.len();
    assert(input.subrange(4, 8) =~= u32_bytes(cl as u32));
    lemma_u32_in(input, 4, cl as u32);
    assert(input.subrange(8, (8 + cl) as int) =~= f.code);
    let off = 8 + cl + 4;
    assert(input.subrange((8 + cl) as int, off as int) =~= u32_bytes(f.consts.len() as u32));
    lemma_u32_in(input, (8 + cl) as int, f.consts.len() as u32);
    let n = f.consts.len();
    assert(input.subrange(off as int, (off + 8 * n) as int) =~= consts_bytes(f.consts));
    lemma_consts_read(input, off, f.consts);
    assert(input.subrange((off + 8 * n) as int, input.len() as int) =~= rest);
}

proof fn lemma_strings_trailer(input: Seq<u8>, t: nat, f: FnModel, rest: Seq<u8>, st0: TrailerState)
    requires
        t + strings_part(f).len() + rest.len() == input.len(),
        input.subrange(t as int, input.len() as int) == strings_part(f) + rest,
        f.strings.len() <= 4096,
        items_fit(utf8_items(f.strings)),
        st0.strings == Seq::<Seq<char>>::empty(),
    ensures
        spec_trailers(input, t, st0) == spec_trailers(input, t + strings_part(f).len(), TrailerState { strings: f.strings, ..st0 }),
{
    if f.strings.len() > 0 {
        let items = utf8_items(f.strings);
        let rs = records(items);
        let whole = strings_part(f) + rest;
        assert(whole.subrange(0, 4) =~= u32_bytes(0xFFFF_FFFFu32));
        assert(whole.subrange(4, 8) =~= u32_bytes(f.strings.len() as u32));
        assert(whole.subrange(8, (8 + rs.len()) as int) =~= rs);
        lemma_piece(input, t as int, u32_bytes(0xFFFF_FFFFu32), t as int, whole);
        lemma_u32_in(input, t as int, 0xFFFF_FFFFu32);
        lemma_piece(input, (t + 4) as int, u32_bytes(f.strings.len() as u32), t as int, whole);
        lemma_u32_in(input, (t + 4) as int, f.strings.len() as u32);
        lemma_piece(input, (t + 8) as int, rs, t as int, whole);
        lemma_strings_read(input, t + 8, f.strings, Seq::empty());
        assert(Seq::<Seq<char>>::empty() + f.strings =~= f.strings);
    } else {
        assert(f.strings =~= Seq::<Seq<char>>::empty());
        assert(TrailerState { strings: f.strings, ..st0 } == st0);
    }
}

proof fn lemma_funcs_trailer(input: Seq<u8>, t: nat, fs: Seq<FnModel>, st1: TrailerState)
    requires
        1 <= fs.len() <= 65,
        items_fit(extra_codes(fs)),
        t + funcs_part(fs).len() == input.len(),
        input.subrange(t as int, input.len() as int) == funcs_part(fs),
        st1.funcs == Seq::<FnModel>::empty(),
    ensures
        spec_trailers(input, t, st1) == Ok::<TrailerState, crate::error::Error>(
            TrailerState { funcs: Seq::new((fs.len() - 1) as nat, |j: int| extra_fn(fs[j + 1].code, j as nat)), ..st1 }),
{
    let k = (fs.len() - 1) as nat;
    let extras = Seq::new(k, |j: int| extra_fn(fs[j + 1].code, j as nat));
    if fs.len() > 1 {
        let codes = extra_codes(fs);
        let rc = records(codes);
        let whole = funcs_part(fs);
        assert(whole.subrange(0, 4) =~= u32_bytes(0xFFFF_FFFEu32));
        assert(whole.subrange(4, 8) =~= u32_bytes(k as u32));
        assert(whole.subrange(8, (8 + rc.len()) as int) =~= rc);
        lemma_piece(input, t as int, u32_bytes(0xFFFF_FFFEu32), t as int, whole);
        lemma_u32_in(input, t as int, 0xFFFF_FFFEu32);
        lemma_piece(input, (t + 4) as int, u32_bytes(k as u32), t as int, whole);
        lemma_u32_in(input, (t + 4) as int, k as u32);
        lemma_piece(input, (t + 8) as int, rc, t as int, whole);
        lemma_funcs_read(input, t + 8, codes, 0, Seq::empty());
        assert(Seq::<FnModel>::empty() + Seq::new(codes.len(), |j: int| extra_fn(codes[j], (0 + j) as nat)) =~= extras);
        assert(spec_trailers(input, t, st1) == spec_trailers(input, input.len(), TrailerState { funcs: extras, ..st1 }));
    } else {
        assert(extras =~= Seq::<FnModel>::empty());
        assert(TrailerState { funcs: extras, ..st1 } == st1);
    }
}

proof fn lemma_assemble(input: Seq<u8>, fs: Seq<FnModel>, t: nat, t2: nat, st0: TrailerState)
    requires
        fs.len() >= 1,
        spec_decode_all(fs[0].code) is Ok,
        st0 == (TrailerState { code: fs[0].code, strings: Seq::empty(), funcs: Seq::empty() }),
        spec_load(input) == spec_body(input, fs[0].code, 12 + fs[0].code.len(), fs[0].consts.len()),
        spec_consts(input, 12 + fs[0].code.len(), fs[0].consts.len()) == fs[0].consts,
        t == 12 + fs[0].code.len() + 8 * fs[0].consts.len(),
        t <= input.len(),
        spec_trailers(input, t, st0) == spec_trailers(input, t2, TrailerState { strings: fs[0].strings, ..st0 }),
        spec_trailers(input, t2, TrailerState { strings: fs[0].strings, ..st0 }) == Ok::<TrailerState, crate::error::Error>(
            TrailerState { funcs: Seq::new((fs.len() - 1) as nat, |j: int| extra_fn(fs[j + 1].code, j as nat)),
                strings: fs[0].strings, ..st0 }),
    ensures
        spec_load(input) == Ok::<Seq<FnModel>, crate::error::Error>(loaded_form(fs)),
{
    let st2 = TrailerState { funcs: Seq::new((fs.len() - 1) as nat, |j: int| extra_fn(fs[j + 1].code, j as nat)),
        strings: fs[0].strings, ..st0 };
    assert(spec_body(input, fs[0].code, 12 + fs[0].code.len(), fs[0].consts.len())
        == finish(spec_trailers(input, t, st0), fs[0].consts));
    assert(finish(Ok(st2), fs[0].consts) =~= Ok::<Seq<FnModel>, crate::error::Error>(loaded_form(fs)));
}

/// Law: loading an encoded module gives back the entry's code, constants and strings, and
/// the code of every other function, for every module the format can hold.
pub proof fn law_load_encoded_module(fs: Seq<FnModel>)
    requires
        encodable_module(fs),
    ensures
        spec_load(spec_encode_module(fs)) == Ok::<Seq<FnModel>, crate::error::Error>(loaded_form(fs)),
{
    let f = fs[0];
    let input = spec_encode_module(fs);
    lemma_layout(fs);
    let rest = strings_part(f) + funcs_part(fs);
    lemma_header(input, f, rest);
    let t = 12 + f.code.len() + 8 * f.consts.len();
    let st0 = TrailerState { code: f.code, strings: Seq::empty(), funcs: Seq::empty() };
    lemma_strings_trailer(input, t, f, funcs_part(fs), st0);
    let t2 = t + strings_part(f).len();
    let st1 = TrailerState { strings: f.strings, ..st0 };
    assert(rest.subrange(strings_part(f).len() as int, rest.len() as int) =~= funcs_part(fs));
    lemma_piece(input, t2 as int, funcs_part(fs), t as int, rest);
    lemma_funcs_trailer(input, t2, fs, st1);
    lemma_assemble(input, fs, t, t2, st0);
}

} // verus!
