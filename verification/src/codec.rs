//! The binary codec of the KSH container format.
//!
//! All integers are little-endian 32-bit words.  A container holds, in
//! order: its name, the uniform table, the vertex stage, the pixel stage,
//! the two reference lists, and an opaque trailer of 32-bit words that is
//! read and discarded.  `p_container` is the mathematical parser of this
//! layout and `spec_container_bytes` its serializer; `decode_container` and
//! `build_ksh` are the executable sides, each pinned to its spec function.

use vstd::bytes::spec_u32_to_le_bytes;
use vstd::prelude::*;
use vstd::string::StringSliceAdditionalSpecFns;
use vstd::utf8::{decode_utf8, encode_utf8, valid_utf8};

use crate::analyzer::{analysis_err, analysis_ok, live_views};
use crate::ast::TranslationUnit;
use crate::cursor::{p_lp, p_u32, spec_lp, write_lp_str, write_u32, BinaryCursor};
use crate::errors::KshError;
use crate::reconcile::{
    merge_uniforms, resolve_indices, seq_contains_name, spec_merge, spec_resolve,
};
use crate::types::{views_of, Variable, VariableScope, VariableType, VarView};

verus! {

/// One uniform record as the parser reads it: the raw array-length field
/// is kept as written in the container.
pub struct VarRaw {
    pub name: Seq<char>,
    pub ty: VariableType,
    pub arr_raw: u32,
    pub defaults: Seq<u32>,
}

/// A whole container as the parser reads it.  The stage texts still carry
/// their mandatory trailing NUL terminator.
pub struct ContainerRaw {
    pub name: Seq<char>,
    pub vars: Seq<VarRaw>,
    pub vs_name: Seq<char>,
    pub vs_text: Seq<char>,
    pub ps_name: Seq<char>,
    pub ps_text: Seq<char>,
    pub vs_refs: Seq<u32>,
    pub ps_refs: Seq<u32>,
}

/// Read of a length-prefixed UTF-8 string.
pub open spec fn p_string(b: Seq<u8>, i: int) -> Result<(Seq<char>, int), KshError> {
    match p_lp(b, i) {
        Some((payload, j)) => if valid_utf8(payload) {
            Ok((decode_utf8(payload), j))
        } else {
            Err(KshError::InvalidEncoding)
        },
        None => Err(KshError::TruncatedInput),
    }
}

/// Read of `n` consecutive 32-bit words.
pub open spec fn p_words(b: Seq<u8>, i: int, n: nat) -> Result<(Seq<u32>, int), KshError>
    decreases n,
{
    if n == 0 {
        Ok((Seq::empty(), i))
    } else {
        match p_u32(b, i) {
            Some((x, j)) => match p_words(b, j, (n - 1) as nat) {
                Ok((rest, k)) => Ok((seq![x] + rest, k)),
                Err(e) => Err(e),
            },
            None => Err(KshError::TruncatedInput),
        }
    }
}

/// Read of one uniform record: name, scope (must be 0), type id (must be
/// one of the six), the raw array-length field, and, for every type but
/// `Sampler2D`, a counted block of default words.
pub open spec fn p_var(b: Seq<u8>, i: int) -> Result<(VarRaw, int), KshError> {
    match p_string(b, i) {
        Err(e) => Err(e),
        Ok((name, i1)) => match p_u32(b, i1) {
            None => Err(KshError::TruncatedInput),
            Some((scope, i2)) => if scope != 0 {
                Err(KshError::InvalidValue)
            } else {
                match p_u32(b, i2) {
                    None => Err(KshError::TruncatedInput),
                    Some((tid, i3)) => if !VariableType::spec_valid_id(tid) {
                        Err(KshError::InvalidValue)
                    } else {
                        let ty = VariableType::spec_ty_of_id(tid);
                        match p_u32(b, i3) {
                            None => Err(KshError::TruncatedInput),
                            Some((arr, i4)) => if ty is Sampler2D {
                                Ok((VarRaw { name, ty, arr_raw: arr, defaults: Seq::empty() }, i4))
                            } else {
                                match p_u32(b, i4) {
                                    None => Err(KshError::TruncatedInput),
                                    Some((cnt, i5)) => match p_words(b, i5, cnt as nat) {
                                        Ok((ws, i6)) => Ok(
                                            (VarRaw { name, ty, arr_raw: arr, defaults: ws }, i6),
                                        ),
                                        Err(e) => Err(e),
                                    },
                                }
                            },
                        }
                    },
                }
            },
        },
    }
}

/// Read of `n` consecutive uniform records.
pub open spec fn p_vars(b: Seq<u8>, i: int, n: nat) -> Result<(Seq<VarRaw>, int), KshError>
    decreases n,
{
    if n == 0 {
        Ok((Seq::empty(), i))
    } else {
        match p_var(b, i) {
            Ok((v, j)) => match p_vars(b, j, (n - 1) as nat) {
                Ok((rest, k)) => Ok((seq![v] + rest, k)),
                Err(e) => Err(e),
            },
            Err(e) => Err(e),
        }
    }
}

/// Read of `cnt` reference indices, each of which must fall inside the
/// uniform table of `nvars` records.
pub open spec fn p_idxs(b: Seq<u8>, i: int, cnt: nat, nvars: nat) -> Result<
    (Seq<u32>, int),
    KshError,
>
    decreases cnt,
{
    if cnt == 0 {
        Ok((Seq::empty(), i))
    } else {
        match p_u32(b, i) {
            None => Err(KshError::TruncatedInput),
            Some((x, j)) => if x as nat >= nvars {
                Err(KshError::CorruptContainer)
            } else {
                match p_idxs(b, j, (cnt - 1) as nat, nvars) {
                    Ok((rest, k)) => Ok((seq![x] + rest, k)),
                    Err(e) => Err(e),
                }
            },
        }
    }
}

/// Read of a whole container, up to and including the two reference lists.
/// Whatever follows is the opaque trailer and parses as success.
pub open spec fn p_container(b: Seq<u8>) -> Result<(ContainerRaw, int), KshError> {
    match p_string(b, 0) {
        Err(e) => Err(e),
        Ok((name, i1)) => match p_u32(b, i1) {
            None => Err(KshError::TruncatedInput),
            Some((n, i2)) => match p_vars(b, i2, n as nat) {
                Err(e) => Err(e),
                Ok((vars, i3)) => match p_string(b, i3) {
                    Err(e) => Err(e),
                    Ok((vs_name, i4)) => match p_string(b, i4) {
                        Err(e) => Err(e),
                        Ok((vs_text, i5)) => match p_string(b, i5) {
                            Err(e) => Err(e),
                            Ok((ps_name, i6)) => match p_string(b, i6) {
                                Err(e) => Err(e),
                                Ok((ps_text, i7)) => match p_u32(b, i7) {
                                    None => Err(KshError::TruncatedInput),
                                    Some((m1, i8)) => match p_idxs(b, i8, m1 as nat, n as nat) {
                                        Err(e) => Err(e),
                                        Ok((vs_refs, i9)) => match p_u32(b, i9) {
                                            None => Err(KshError::TruncatedInput),
                                            Some((m2, i10)) => match p_idxs(
                                                b,
                                                i10,
                                                m2 as nat,
                                                n as nat,
                                            ) {
                                                Err(e) => Err(e),
                                                Ok((ps_refs, i11)) => Ok(
                                                    (
                                                        ContainerRaw {
                                                            name,
                                                            vars,
                                                            vs_name,
                                                            vs_text,
                                                            ps_name,
                                                            ps_text,
                                                            vs_refs,
                                                            ps_refs,
                                                        },
                                                        i11,
                                                    ),
                                                ),
                                            },
                                        },
                                    },
                                },
                            },
                        },
                    },
                },
            },
        },
    }
}

/// The array length a raw field denotes: values above 1 are array sizes,
/// 0 and 1 both mean a scalar.
pub open spec fn arr_of_raw(arr: u32) -> Option<u32> {
    if arr > 1 {
        Some(arr)
    } else {
        None
    }
}

/// The text a stage blob denotes: the blob's final character (the NUL
/// terminator) is stripped; an empty blob stays empty.
pub open spec fn source_of_text(t: Seq<char>) -> Seq<char> {
    if t.len() > 0 {
        t.drop_last()
    } else {
        t
    }
}

/// The record a parsed raw record denotes.
pub open spec fn var_of_raw(vr: VarRaw) -> VarView {
    VarView {
        name: vr.name,
        ty: vr.ty,
        default_data: vr.defaults,
        scope: VariableScope::UNIFORM,
        array_length: arr_of_raw(vr.arr_raw),
    }
}

/// The records a parsed raw table denotes.
pub open spec fn vars_of_raw(s: Seq<VarRaw>) -> Seq<VarView> {
    s.map_values(|vr: VarRaw| var_of_raw(vr))
}

/// One stage of a decoded container.
pub struct ShaderStage {
    /// The stage's file name.
    pub name: String,
    /// The stage's GLSL text, with the NUL terminator already stripped.
    pub source: String,
}

/// The mathematical value of one stage.
pub struct StageView {
    pub name: Seq<char>,
    pub source: Seq<char>,
}

impl View for ShaderStage {
    type V = StageView;

    open spec fn view(&self) -> StageView {
        StageView { name: self.name@, source: self.source@ }
    }
}

/// A decoded container.
pub struct Container {
    pub name: String,
    pub uniforms: Vec<Variable>,
    pub vertex: ShaderStage,
    pub pixel: ShaderStage,
    pub vs_refs: Vec<u32>,
    pub ps_refs: Vec<u32>,
}

/// The mathematical value of a container.
pub struct ContainerView {
    pub name: Seq<char>,
    pub uniforms: Seq<VarView>,
    pub vs_name: Seq<char>,
    pub vs_source: Seq<char>,
    pub ps_name: Seq<char>,
    pub ps_source: Seq<char>,
    pub vs_refs: Seq<u32>,
    pub ps_refs: Seq<u32>,
}

impl View for Container {
    type V = ContainerView;

    open spec fn view(&self) -> ContainerView {
        ContainerView {
            name: self.name@,
            uniforms: views_of(self.uniforms@),
            vs_name: self.vertex.name@,
            vs_source: self.vertex.source@,
            ps_name: self.pixel.name@,
            ps_source: self.pixel.source@,
            vs_refs: self.vs_refs@,
            ps_refs: self.ps_refs@,
        }
    }
}

/// The container a parsed raw container denotes: raw array fields become
/// array lengths and the stage texts lose their final character.
pub open spec fn view_of_raw(raw: ContainerRaw) -> ContainerView {
    ContainerView {
        name: raw.name,
        uniforms: vars_of_raw(raw.vars),
        vs_name: raw.vs_name,
        vs_source: source_of_text(raw.vs_text),
        ps_name: raw.ps_name,
        ps_source: source_of_text(raw.ps_text),
        vs_refs: raw.vs_refs,
        ps_refs: raw.ps_refs,
    }
}

/// Reads `cnt` consecutive 32-bit words.
fn read_words(cursor: &mut BinaryCursor, cnt: u32) -> (r: Result<Vec<u32>, KshError>)
    requires
        old(cursor).wf(),
    ensures
        final(cursor).wf(),
        final(cursor).bytes() == old(cursor).bytes(),
        r is Ok <==> p_words(old(cursor).bytes(), old(cursor).position(), cnt as nat) is Ok,
        r matches Ok(v) ==> {
            let (ws, end) = p_words(old(cursor).bytes(), old(cursor).position(), cnt as nat)->Ok_0;
            v@ == ws && final(cursor).position() == end
        },
        r matches Err(e) ==> Err::<(Seq<u32>, int), KshError>(e) == p_words(
            old(cursor).bytes(),
            old(cursor).position(),
            cnt as nat,
        ),
{
    let ghost b = cursor.bytes();
    let ghost pos0 = cursor.position();
    let mut out: Vec<u32> = Vec::new();
    let mut k: u32 = 0;
    while k < cnt
        invariant
            cursor.wf(),
            cursor.bytes() == b,
            k <= cnt,
            out@.len() == k as nat,
            match p_words(b, cursor.position(), (cnt - k) as nat) {
                Ok((rest, end)) => p_words(b, pos0, cnt as nat) == Ok::<_, KshError>(
                    (out@ + rest, end),
                ),
                Err(e) => p_words(b, pos0, cnt as nat) == Err::<(Seq<u32>, int), KshError>(e),
            },
        decreases cnt - k,
    {
        let ghost cur = cursor.position();
        let ghost prev = out@;
        let x = match cursor.read_u32() {
            Ok(x) => x,
            Err(e) => {
                return Err(e);
            },
        };
        out.push(x);
        proof {
            let m = (cnt - k) as nat;
            match p_words(b, cursor.position(), (m - 1) as nat) {
                Ok((r2, e2)) => {
                    assert(p_words(b, cur, m) == Ok::<_, KshError>((seq![x] + r2, e2)));
                    assert(out@ + r2 =~= prev + (seq![x] + r2));
                },
                Err(_) => {},
            }
        }
        k = k + 1;
    }
    proof {
        assert(out@ + Seq::<u32>::empty() =~= out@);
    }
    Ok(out)
}

/// Reads one uniform record, exactly as `p_var` describes it.
pub fn read_variable(cursor: &mut BinaryCursor) -> (r: Result<Variable, KshError>)
    requires
        old(cursor).wf(),
    ensures
        final(cursor).wf(),
        final(cursor).bytes() == old(cursor).bytes(),
        r is Ok <==> p_var(old(cursor).bytes(), old(cursor).position()) is Ok,
        r matches Ok(v) ==> {
            let (vr, end) = p_var(old(cursor).bytes(), old(cursor).position())->Ok_0;
            v@ == var_of_raw(vr) && final(cursor).position() == end
        },
        r matches Err(e) ==> e == p_var(old(cursor).bytes(), old(cursor).position())->Err_0,
{
    let mut var = Variable::new();
    var.name = match cursor.read_string() {
        Ok(s) => s,
        Err(e) => {
            return Err(e);
        },
    };
    let scope = match cursor.read_u32() {
        Ok(x) => x,
        Err(e) => {
            return Err(e);
        },
    };
    match var.set_scope(scope) {
        Ok(()) => {},
        Err(e) => {
            return Err(e);
        },
    }
    let tid = match cursor.read_u32() {
        Ok(x) => x,
        Err(e) => {
            return Err(e);
        },
    };
    match var.set_type(tid) {
        Ok(()) => {},
        Err(e) => {
            return Err(e);
        },
    }
    let length = match cursor.read_u32() {
        Ok(x) => x,
        Err(e) => {
            return Err(e);
        },
    };
    var.array_length = if length > 1 {
        Some(length)
    } else {
        None
    };
    if var.ty != VariableType::Sampler2D {
        let cnt = match cursor.read_u32() {
            Ok(x) => x,
            Err(e) => {
                return Err(e);
            },
        };
        var.default_data = match read_words(cursor, cnt) {
            Ok(v) => v,
            Err(e) => {
                return Err(e);
            },
        };
    }
    Ok(var)
}

/// Reads `n` consecutive uniform records.
fn read_table(cursor: &mut BinaryCursor, n: u32) -> (r: Result<Vec<Variable>, KshError>)
    requires
        old(cursor).wf(),
    ensures
        final(cursor).wf(),
        final(cursor).bytes() == old(cursor).bytes(),
        r is Ok <==> p_vars(old(cursor).bytes(), old(cursor).position(), n as nat) is Ok,
        r matches Ok(v) ==> {
            let (raws, end) = p_vars(old(cursor).bytes(), old(cursor).position(), n as nat)->Ok_0;
            views_of(v@) == vars_of_raw(raws) && final(cursor).position() == end
        },
        r matches Err(e) ==> Err::<(Seq<VarRaw>, int), KshError>(e) == p_vars(
            old(cursor).bytes(),
            old(cursor).position(),
            n as nat,
        ),
{
    let ghost b = cursor.bytes();
    let ghost pos0 = cursor.position();
    let mut out: Vec<Variable> = Vec::new();
    let ghost mut raws: Seq<VarRaw> = Seq::empty();
    let mut k: u32 = 0;
    while k < n
        invariant
            cursor.wf(),
            cursor.bytes() == b,
            k <= n,
            raws.len() == k as nat,
            views_of(out@) == vars_of_raw(raws),
            match p_vars(b, cursor.position(), (n - k) as nat) {
                Ok((rest, end)) => p_vars(b, pos0, n as nat) == Ok::<_, KshError>(
                    (raws + rest, end),
                ),
                Err(e) => p_vars(b, pos0, n as nat) == Err::<(Seq<VarRaw>, int), KshError>(e),
            },
        decreases n - k,
    {
        let ghost cur = cursor.position();
        let ghost prev = out@;
        let v = match read_variable(cursor) {
            Ok(v) => v,
            Err(e) => {
                return Err(e);
            },
        };
        out.push(v);
        proof {
            let vr = p_var(b, cur)->Ok_0.0;
            let ghost raws0 = raws;
            raws = raws.push(vr);
            assert(views_of(out@) =~= views_of(prev).push(v@));
            assert(vars_of_raw(raws) =~= vars_of_raw(raws0).push(var_of_raw(vr)));
            assert(views_of(out@) =~= vars_of_raw(raws));
            let m = (n - k) as nat;
            match p_vars(b, cursor.position(), (m - 1) as nat) {
                Ok((r2, e2)) => {
                    assert(p_vars(b, cur, m) == Ok::<_, KshError>((seq![vr] + r2, e2)));
                    assert(raws + r2 =~= raws0 + (seq![vr] + r2));
                    assert(p_vars(b, pos0, n as nat) == Ok::<_, KshError>((raws + r2, e2)));
                },
                Err(e2) => {
                    assert(p_vars(b, cur, m) == Err::<(Seq<VarRaw>, int), KshError>(e2));
                    assert(p_vars(b, pos0, n as nat) == Err::<(Seq<VarRaw>, int), KshError>(e2));
                },
            }
        }
        k = k + 1;
    }
    proof {
        assert(raws + Seq::<VarRaw>::empty() =~= raws);
    }
    Ok(out)
}

/// Reads `cnt` reference indices and checks each against the table size.
fn read_idx_list(cursor: &mut BinaryCursor, cnt: u32, nvars: u32) -> (r: Result<
    Vec<u32>,
    KshError,
>)
    requires
        old(cursor).wf(),
    ensures
        final(cursor).wf(),
        final(cursor).bytes() == old(cursor).bytes(),
        r is Ok <==> p_idxs(old(cursor).bytes(), old(cursor).position(), cnt as nat, nvars as nat)
            is Ok,
        r matches Ok(v) ==> {
            let (idxs, end) = p_idxs(
                old(cursor).bytes(),
                old(cursor).position(),
                cnt as nat,
                nvars as nat,
            )->Ok_0;
            v@ == idxs && final(cursor).position() == end
        },
        r matches Err(e) ==> Err::<(Seq<u32>, int), KshError>(e) == p_idxs(
            old(cursor).bytes(),
            old(cursor).position(),
            cnt as nat,
            nvars as nat,
        ),
{
    let ghost b = cursor.bytes();
    let ghost pos0 = cursor.position();
    let mut out: Vec<u32> = Vec::new();
    let mut k: u32 = 0;
    while k < cnt
        invariant
            cursor.wf(),
            cursor.bytes() == b,
            k <= cnt,
            out@.len() == k as nat,
            match p_idxs(b, cursor.position(), (cnt - k) as nat, nvars as nat) {
                Ok((rest, end)) => p_idxs(b, pos0, cnt as nat, nvars as nat) == Ok::<_, KshError>(
                    (out@ + rest, end),
                ),
                Err(e) => p_idxs(b, pos0, cnt as nat, nvars as nat) == Err::<
                    (Seq<u32>, int),
                    KshError,
                >(e),
            },
        decreases cnt - k,
    {
        let ghost cur = cursor.position();
        let ghost prev = out@;
        let x = match cursor.read_u32() {
            Ok(x) => x,
            Err(e) => {
                return Err(e);
            },
        };
        if x >= nvars {
            return Err(KshError::CorruptContainer);
        }
        out.push(x);
        proof {
            let m = (cnt - k) as nat;
            match p_idxs(b, cursor.position(), (m - 1) as nat, nvars as nat) {
                Ok((r2, e2)) => {
                    assert(p_idxs(b, cur, m, nvars as nat) == Ok::<_, KshError>(
                        (seq![x] + r2, e2),
                    ));
                    assert(out@ + r2 =~= prev + (seq![x] + r2));
                },
                Err(_) => {},
            }
        }
        k = k + 1;
    }
    proof {
        assert(out@ + Seq::<u32>::empty() =~= out@);
    }
    Ok(out)
}

/// Decodes a whole container.  The trailer past the reference lists is
/// opaque and ignored; running out of input there is success.
pub fn decode_container(content: &[u8]) -> (r: Result<Container, KshError>)
    ensures
        r is Ok <==> p_container(content@) is Ok,
        r matches Ok(c) ==> c@ == view_of_raw(p_container(content@)->Ok_0.0),
        r matches Err(e) ==> e == p_container(content@)->Err_0,
{
    let mut cursor = BinaryCursor::new(content);
    let name = match cursor.read_string() {
        Ok(s) => s,
        Err(e) => {
            return Err(e);
        },
    };
    let n = match cursor.read_u32() {
        Ok(x) => x,
        Err(e) => {
            return Err(e);
        },
    };
    let uniforms = match read_table(&mut cursor, n) {
        Ok(v) => v,
        Err(e) => {
            return Err(e);
        },
    };
    let vs_name = match cursor.read_string() {
        Ok(s) => s,
        Err(e) => {
            return Err(e);
        },
    };
    let mut vs_source = match cursor.read_string() {
        Ok(s) => s,
        Err(e) => {
            return Err(e);
        },
    };
    crate::strutil::string_pop(&mut vs_source);
    let ps_name = match cursor.read_string() {
        Ok(s) => s,
        Err(e) => {
            return Err(e);
        },
    };
    let mut ps_source = match cursor.read_string() {
        Ok(s) => s,
        Err(e) => {
            return Err(e);
        },
    };
    crate::strutil::string_pop(&mut ps_source);
    let m1 = match cursor.read_u32() {
        Ok(x) => x,
        Err(e) => {
            return Err(e);
        },
    };
    let vs_refs = match read_idx_list(&mut cursor, m1, n) {
        Ok(v) => v,
        Err(e) => {
            return Err(e);
        },
    };
    let m2 = match cursor.read_u32() {
        Ok(x) => x,
        Err(e) => {
            return Err(e);
        },
    };
    let ps_refs = match read_idx_list(&mut cursor, m2, n) {
        Ok(v) => v,
        Err(e) => {
            return Err(e);
        },
    };
    Ok(
        Container {
            name,
            uniforms,
            vertex: ShaderStage { name: vs_name, source: vs_source },
            pixel: ShaderStage { name: ps_name, source: ps_source },
            vs_refs,
            ps_refs,
        },
    )
}

/// Decodes a container and hands back what the minimal extraction needs:
/// the two stage names and the two stage texts.
pub fn analyze_ksh(content: &[u8]) -> (r: Result<(String, String, String, String), KshError>)
    ensures
        r is Ok <==> p_container(content@) is Ok,
        r matches Ok(t) ==> {
            let raw = p_container(content@)->Ok_0.0;
            &&& t.0@ == raw.vs_name
            &&& t.1@ == source_of_text(raw.vs_text)
            &&& t.2@ == raw.ps_name
            &&& t.3@ == source_of_text(raw.ps_text)
        },
        r matches Err(e) ==> e == p_container(content@)->Err_0,
{
    let c = match decode_container(content) {
        Ok(c) => c,
        Err(e) => {
            return Err(e);
        },
    };
    let Container { vertex, pixel, .. } = c;
    Ok((vertex.name, vertex.source, pixel.name, pixel.source))
}

/// The serialization of a list of 32-bit words, in order.
pub open spec fn spec_words_bytes(ws: Seq<u32>) -> Seq<u8>
    decreases ws,
{
    if ws.len() == 0 {
        Seq::empty()
    } else {
        spec_words_bytes(ws.drop_last()) + spec_u32_to_le_bytes(ws.last())
    }
}

/// `n` zero words.
pub open spec fn spec_zeros(n: nat) -> Seq<u32> {
    Seq::new(n, |i: int| 0u32)
}

/// The serialization of a length-prefixed string.
pub open spec fn spec_lp_str(s: Seq<char>) -> Seq<u8> {
    spec_lp(encode_utf8(s))
}

/// The value of the array-length field: the declared size, or 1 for a
/// scalar.
pub open spec fn spec_arr_field(arr: Option<u32>) -> u32 {
    match arr {
        Some(x) => x,
        None => 1,
    }
}

/// The default-data block of a record: a `Sampler2D` carries none at all,
/// a scalar carries its type's arity in zero words, and an array carries
/// an empty counted block.
pub open spec fn spec_default_block(ty: VariableType, arr: Option<u32>) -> Seq<u8> {
    if ty is Sampler2D {
        Seq::empty()
    } else if arr is None {
        spec_u32_to_le_bytes(ty.spec_arity() as u32) + spec_words_bytes(
            spec_zeros(ty.spec_arity() as nat),
        )
    } else {
        spec_u32_to_le_bytes(0)
    }
}

/// The serialization of one uniform record.
pub open spec fn spec_var_bytes(v: VarView) -> Seq<u8> {
    spec_lp_str(v.name) + spec_u32_to_le_bytes(0) + spec_u32_to_le_bytes(v.ty.spec_id())
        + spec_u32_to_le_bytes(spec_arr_field(v.array_length)) + spec_default_block(
        v.ty,
        v.array_length,
    )
}

/// The serialization of the uniform table, record after record.
pub open spec fn spec_vars_bytes(s: Seq<VarView>) -> Seq<u8>
    decreases s,
{
    if s.len() == 0 {
        Seq::empty()
    } else {
        spec_vars_bytes(s.drop_last()) + spec_var_bytes(s.last())
    }
}

/// The serialization of one stage: its name, then its text with one NUL
/// byte appended, as a length-prefixed block.
pub open spec fn spec_stage_bytes(name: Seq<char>, source: Seq<char>) -> Seq<u8> {
    spec_lp_str(name) + spec_lp(encode_utf8(source) + seq![0u8])
}

/// The serialization of a reference list: its count, then its indices.
pub open spec fn spec_refs_bytes(rs: Seq<u32>) -> Seq<u8> {
    spec_u32_to_le_bytes(rs.len() as u32) + spec_words_bytes(rs)
}

/// The serialization of a whole container.
pub open spec fn spec_container_bytes(c: ContainerView) -> Seq<u8> {
    spec_lp_str(c.name) + spec_u32_to_le_bytes(c.uniforms.len() as u32) + spec_vars_bytes(
        c.uniforms,
    ) + spec_stage_bytes(c.vs_name, c.vs_source) + spec_stage_bytes(c.ps_name, c.ps_source)
        + spec_refs_bytes(c.vs_refs) + spec_refs_bytes(c.ps_refs)
}

/// The container the encoder emits for the given inputs: the merged live
/// uniform table and the two resolved reference lists.
pub open spec fn build_view(
    file_name: Seq<char>,
    vs_name: Seq<char>,
    vs_source: Seq<char>,
    vs_tree: TranslationUnit,
    ps_name: Seq<char>,
    ps_source: Seq<char>,
    ps_tree: TranslationUnit,
) -> ContainerView {
    let vl = live_views(vs_tree);
    let pl = live_views(ps_tree);
    let m = spec_merge(vl, pl);
    ContainerView {
        name: file_name,
        uniforms: m,
        vs_name,
        vs_source,
        ps_name,
        ps_source,
        vs_refs: spec_resolve(vl, m),
        ps_refs: spec_resolve(pl, m),
    }
}

/// Every live uniform name of a file stays within the name-length bound.
proof fn lemma_live_name_bound(tu: TranslationUnit, k: int)
    requires
        forall|j: int|
            0 <= j < crate::analyzer::uniform_views(tu.decls@).len() ==> encode_utf8(
                (#[trigger] crate::analyzer::uniform_views(tu.decls@)[j]).name,
            ).len() <= u32::MAX,
        0 <= k < live_views(tu).len(),
    ensures
        encode_utf8(live_views(tu)[k].name).len() <= u32::MAX,
{
    let uv = crate::analyzer::uniform_views(tu.decls@);
    let pred = |v: VarView| crate::analyzer::tu_uses(tu).contains(v.name);
    crate::analyzer::lemma_filter_subset(uv, pred, k);
    let j = choose|j: int| 0 <= j < uv.len() && uv[j] == uv.filter(pred)[k];
    assert(encode_utf8(uv[j].name).len() <= u32::MAX);
}

/// Appends `n` zero words.
fn write_zero_words(buf: &mut Vec<u8>, n: usize)
    ensures
        final(buf)@ == old(buf)@ + spec_words_bytes(spec_zeros(n as nat)),
{
    let ghost base = buf@;
    let mut t: usize = 0;
    while t < n
        invariant
            t <= n,
            buf@ == base + spec_words_bytes(spec_zeros(t as nat)),
        decreases n - t,
    {
        let ghost prev = buf@;
        write_u32(buf, 0);
        proof {
            let z1 = spec_zeros((t + 1) as nat);
            assert(z1.drop_last() =~= spec_zeros(t as nat));
            assert(z1.last() == 0u32);
            assert(buf@ =~= base + spec_words_bytes(z1));
        }
        t = t + 1;
    }
}

/// Appends a list of 32-bit words, in order.
fn write_words(buf: &mut Vec<u8>, ws: &Vec<u32>)
    ensures
        final(buf)@ == old(buf)@ + spec_words_bytes(ws@),
{
    let ghost base = buf@;
    let n = ws.len();
    let mut t: usize = 0;
    while t < n
        invariant
            t <= n,
            buf@ == base + spec_words_bytes(ws@.subrange(0, t as int)),
        decreases n - t,
    {
        write_u32(buf, ws[t]);
        proof {
            let post = ws@.subrange(0, t + 1);
            assert(post.drop_last() =~= ws@.subrange(0, t as int));
            assert(post.last() == ws@[t as int]);
            assert(buf@ =~= base + spec_words_bytes(post));
        }
        t = t + 1;
    }
    proof {
        assert(ws@.subrange(0, n as int) =~= ws@);
    }
}

/// Appends one uniform record, as `spec_var_bytes` lays it out.
fn write_variable(buf: &mut Vec<u8>, u: &Variable)
    requires
        encode_utf8(u.name@).len() <= u32::MAX,
    ensures
        final(buf)@ == old(buf)@ + spec_var_bytes(u@),
{
    let ghost base = buf@;
    write_lp_str(buf, u.name.as_str());
    write_u32(buf, 0);
    write_u32(buf, u.get_type_id());
    let arr_field = match u.array_length {
        Some(x) => x,
        None => 1,
    };
    write_u32(buf, arr_field);
    if u.ty != VariableType::Sampler2D {
        if u.array_length.is_none() {
            let cnt = u.default_data_length();
            write_u32(buf, cnt as u32);
            write_zero_words(buf, cnt);
        } else {
            write_u32(buf, 0);
        }
    }
    proof {
        assert(buf@ =~= base + spec_var_bytes(u@));
    }
}

/// Appends one stage: its name, then its text with the NUL terminator, as
/// `spec_stage_bytes` lays it out.
fn write_stage(buf: &mut Vec<u8>, name: &str, source: &str)
    requires
        name.spec_bytes().len() <= u32::MAX,
        source.spec_bytes().len() + 1 <= u32::MAX,
    ensures
        final(buf)@ == old(buf)@ + spec_stage_bytes(name@, source@),
{
    let ghost base = buf@;
    write_lp_str(buf, name);
    write_u32(buf, (source.len() as u32) + 1);
    buf.extend_from_slice(source.as_bytes());
    buf.push(0);
    proof {
        let payload = encode_utf8(source@) + seq![0u8];
        assert(payload.len() == encode_utf8(source@).len() + 1);
        assert(buf@ =~= base + spec_stage_bytes(name@, source@));
    }
}

/// Serializes a container from its name, its two stage names and texts,
/// and the two parsed syntax trees.  Each stage is analyzed for its live
/// uniforms, the two lists are merged into the table, and the table, the
/// stages and the resolved reference lists are laid out as
/// `spec_container_bytes` describes.  Fails exactly when the analysis of a
/// stage fails, the vertex stage first.
pub fn build_ksh(
    file_name: &str,
    vs_name: &str,
    vs_source: &str,
    vs_tree: &TranslationUnit,
    ps_name: &str,
    ps_source: &str,
    ps_tree: &TranslationUnit,
) -> (r: Result<Vec<u8>, KshError>)
    requires
        file_name.spec_bytes().len() <= u32::MAX,
        vs_name.spec_bytes().len() <= u32::MAX,
        vs_source.spec_bytes().len() + 1 <= u32::MAX,
        ps_name.spec_bytes().len() <= u32::MAX,
        ps_source.spec_bytes().len() + 1 <= u32::MAX,
        vs_tree.decls@.len() + ps_tree.decls@.len() <= u32::MAX,
        forall|j: int|
            0 <= j < crate::analyzer::uniform_views(vs_tree.decls@).len() ==> encode_utf8(
                (#[trigger] crate::analyzer::uniform_views(vs_tree.decls@)[j]).name,
            ).len() <= u32::MAX,
        forall|j: int|
            0 <= j < crate::analyzer::uniform_views(ps_tree.decls@).len() ==> encode_utf8(
                (#[trigger] crate::analyzer::uniform_views(ps_tree.decls@)[j]).name,
            ).len() <= u32::MAX,
    ensures
        r is Ok <==> analysis_ok(*vs_tree) && analysis_ok(*ps_tree),
        r matches Ok(v) ==> v@ == spec_container_bytes(
            build_view(
                file_name@,
                vs_name@,
                vs_source@,
                *vs_tree,
                ps_name@,
                ps_source@,
                *ps_tree,
            ),
        ),
        r matches Err(e) ==> e == (if !analysis_ok(*vs_tree) {
            analysis_err(*vs_tree)
        } else {
            analysis_err(*ps_tree)
        }),
{
    let vs_uniforms = match crate::analyzer::analyze_uniforms(vs_tree) {
        Ok(v) => v,
        Err(e) => {
            return Err(e);
        },
    };
    let ps_uniforms = match crate::analyzer::analyze_uniforms(ps_tree) {
        Ok(v) => v,
        Err(e) => {
            return Err(e);
        },
    };
    let ghost vl = live_views(*vs_tree);
    let ghost pl = live_views(*ps_tree);
    let merged = merge_uniforms(&vs_uniforms, &ps_uniforms);
    let ghost mv = spec_merge(vl, pl);
    proof {
        crate::reconcile::lemma_merge_len(vl, pl);
        crate::analyzer::uniform_views(vs_tree.decls@).lemma_filter_len(
            |v: VarView| crate::analyzer::tu_uses(*vs_tree).contains(v.name),
        );
        crate::analyzer::uniform_views(ps_tree.decls@).lemma_filter_len(
            |v: VarView| crate::analyzer::tu_uses(*ps_tree).contains(v.name),
        );
        crate::analyzer::lemma_uniform_views_len(vs_tree.decls@);
        crate::analyzer::lemma_uniform_views_len(ps_tree.decls@);
        crate::reconcile::lemma_merge_structure(vl, pl);
        assert forall|k: int| 0 <= k < mv.len() implies encode_utf8(
            (#[trigger] mv[k]).name,
        ).len() <= u32::MAX by {
            if k < vl.len() {
                assert(mv.subrange(0, vl.len() as int)[k] == mv[k]);
                lemma_live_name_bound(*vs_tree, k);
            } else {
                let j = choose|j: int| 0 <= j < pl.len() && pl[j] == mv[k];
                lemma_live_name_bound(*ps_tree, j);
            }
        }
    }
    let mut buffer: Vec<u8> = Vec::new();
    write_lp_str(&mut buffer, file_name);
    write_u32(&mut buffer, merged.len() as u32);
    let ghost base = buffer@;
    let n = merged.len();
    let mut i: usize = 0;
    while i < n
        invariant
            i <= n,
            buffer@ == base + spec_vars_bytes(mv.subrange(0, i as int)),
        decreases n - i,
    {
        proof {
            assert(mv[i as int] == merged@[i as int]@);
            assert(encode_utf8(merged@[i as int]@.name).len() <= u32::MAX);
        }
        write_variable(&mut buffer, &merged[i]);
        proof {
            let post = mv.subrange(0, i + 1);
            assert(post.drop_last() =~= mv.subrange(0, i as int));
            assert(post.last() == mv[i as int]);
            assert(buffer@ =~= base + spec_vars_bytes(post));
        }
        i = i + 1;
    }
    proof {
        assert(mv.subrange(0, n as int) =~= mv);
    }
    write_stage(&mut buffer, vs_name, vs_source);
    write_stage(&mut buffer, ps_name, ps_source);
    let vs_refs = match resolve_indices(&vs_uniforms, &merged) {
        Ok(v) => v,
        Err(e) => {
            proof {
                assert forall|k: int| 0 <= k < vl.len() implies seq_contains_name(
                    mv,
                    (#[trigger] vl[k]).name,
                ) by {
                    assert(seq_contains_name(vl, vl[k].name));
                    crate::reconcile::lemma_merge_covers(vl, pl, vl[k].name);
                }
                assert(false);
            }
            return Err(e);
        },
    };
    write_u32(&mut buffer, vs_refs.len() as u32);
    write_words(&mut buffer, &vs_refs);
    let ps_refs = match resolve_indices(&ps_uniforms, &merged) {
        Ok(v) => v,
        Err(e) => {
            proof {
                assert forall|k: int| 0 <= k < pl.len() implies seq_contains_name(
                    mv,
                    (#[trigger] pl[k]).name,
                ) by {
                    assert(seq_contains_name(pl, pl[k].name));
                    crate::reconcile::lemma_merge_covers(vl, pl, pl[k].name);
                }
                assert(false);
            }
            return Err(e);
        },
    };
    write_u32(&mut buffer, ps_refs.len() as u32);
    write_words(&mut buffer, &ps_refs);
    proof {
        assert(buffer@ =~= spec_container_bytes(
            build_view(
                file_name@,
                vs_name@,
                vs_source@,
                *vs_tree,
                ps_name@,
                ps_source@,
                *ps_tree,
            ),
        ));
    }
    Ok(buffer)
}

/// A parsed 32-bit word occupies exactly its four little-endian bytes.
proof fn lemma_p_u32_bytes(b: Seq<u8>, i: int)
    requires
        p_u32(b, i) is Some,
    ensures
        ({
            let (x, j) = p_u32(b, i)->Some_0;
            j == i + 4 && i >= 0 && j <= b.len() && spec_u32_to_le_bytes(x) == b.subrange(i, j)
        }),
{
    vstd::bytes::lemma_auto_spec_u32_to_from_le_bytes();
}

/// A parsed length-prefixed string re-serializes to exactly its bytes.
proof fn lemma_p_string_bytes(b: Seq<u8>, i: int)
    requires
        p_string(b, i) is Ok,
    ensures
        ({
            let (s, j) = p_string(b, i)->Ok_0;
            i >= 0 && i + 4 <= j <= b.len() && spec_lp_str(s) == b.subrange(i, j)
        }),
{
    broadcast use vstd::utf8::decode_utf8_encode_utf8;

    lemma_p_u32_bytes(b, i);
    let (n, m) = p_u32(b, i)->Some_0;
    let (payload, j) = p_lp(b, i)->Some_0;
    let (s, _) = p_string(b, i)->Ok_0;
    assert(payload.len() == n as int);
    assert(encode_utf8(s) == payload);
    assert(spec_lp_str(s) =~= spec_u32_to_le_bytes(n) + payload);
    assert(b.subrange(i, j) =~= b.subrange(i, m) + b.subrange(m, j));
}

/// Prepending a word to a list prepends its bytes to the serialization.
proof fn lemma_words_bytes_cons(x: u32, rest: Seq<u32>)
    ensures
        spec_words_bytes(seq![x] + rest) == spec_u32_to_le_bytes(x) + spec_words_bytes(rest),
    decreases rest,
{
    if rest.len() == 0 {
        let one = seq![x] + rest;
        assert(one =~= seq![x]);
        assert(one.drop_last() =~= Seq::<u32>::empty());
        assert(one.last() == x);
        assert(spec_words_bytes(Seq::<u32>::empty()) == Seq::<u8>::empty());
        assert(spec_words_bytes(one) =~= spec_u32_to_le_bytes(x) + spec_words_bytes(rest));
    } else {
        let whole = seq![x] + rest;
        assert(whole.drop_last() =~= seq![x] + rest.drop_last());
        assert(whole.last() == rest.last());
        lemma_words_bytes_cons(x, rest.drop_last());
        assert(spec_words_bytes(whole) =~= spec_u32_to_le_bytes(x) + spec_words_bytes(rest));
    }
}

/// A parsed word list re-serializes to exactly its bytes.
proof fn lemma_p_words_bytes(b: Seq<u8>, i: int, n: nat)
    requires
        0 <= i <= b.len(),
        p_words(b, i, n) is Ok,
    ensures
        ({
            let (ws, end) = p_words(b, i, n)->Ok_0;
            ws.len() == n && i <= end <= b.len() && spec_words_bytes(ws) == b.subrange(i, end)
        }),
    decreases n,
{
    let (ws, end) = p_words(b, i, n)->Ok_0;
    if n == 0 {
        assert(spec_words_bytes(ws) =~= b.subrange(i, end));
    } else {
        lemma_p_u32_bytes(b, i);
        let (x, j) = p_u32(b, i)->Some_0;
        lemma_p_words_bytes(b, j, (n - 1) as nat);
        let (rest, _) = p_words(b, j, (n - 1) as nat)->Ok_0;
        lemma_words_bytes_cons(x, rest);
        assert(b.subrange(i, end) =~= b.subrange(i, j) + b.subrange(j, end));
    }
}

/// A parsed reference list re-serializes to exactly its bytes.
proof fn lemma_p_idxs_bytes(b: Seq<u8>, i: int, cnt: nat, nvars: nat)
    requires
        0 <= i <= b.len(),
        p_idxs(b, i, cnt, nvars) is Ok,
    ensures
        ({
            let (idxs, end) = p_idxs(b, i, cnt, nvars)->Ok_0;
            idxs.len() == cnt && i <= end <= b.len() && spec_words_bytes(idxs) == b.subrange(
                i,
                end,
            ) && (forall|k: int| 0 <= k < idxs.len() ==> ((#[trigger] idxs[k]) as nat) < nvars)
        }),
    decreases cnt,
{
    let (idxs, end) = p_idxs(b, i, cnt, nvars)->Ok_0;
    if cnt == 0 {
        assert(spec_words_bytes(idxs) =~= b.subrange(i, end));
    } else {
        lemma_p_u32_bytes(b, i);
        let (x, j) = p_u32(b, i)->Some_0;
        lemma_p_idxs_bytes(b, j, (cnt - 1) as nat, nvars);
        let (rest, _) = p_idxs(b, j, (cnt - 1) as nat, nvars)->Ok_0;
        lemma_words_bytes_cons(x, rest);
        assert(b.subrange(i, end) =~= b.subrange(i, j) + b.subrange(j, end));
        assert(forall|k: int| 1 <= k < idxs.len() ==> idxs[k] == rest[k - 1]);
    }
}

/// True when a parsed record is in the form the encoder emits: an
/// array-length field of at least 1, and a default block of exactly the
/// type's arity in zero words for a scalar, or none at all for an array.
pub open spec fn canonical_var(vr: VarRaw) -> bool {
    &&& vr.arr_raw >= 1
    &&& (!(vr.ty is Sampler2D) ==> (if vr.arr_raw <= 1 {
        vr.defaults == spec_zeros(vr.ty.spec_arity() as nat)
    } else {
        vr.defaults == Seq::<u32>::empty()
    }))
}

/// A parsed canonical record re-serializes to exactly its bytes.
proof fn lemma_p_var_bytes(b: Seq<u8>, i: int)
    requires
        p_var(b, i) is Ok,
        canonical_var(p_var(b, i)->Ok_0.0),
    ensures
        ({
            let (vr, end) = p_var(b, i)->Ok_0;
            i >= 0 && i <= end <= b.len() && spec_var_bytes(var_of_raw(vr)) == b.subrange(i, end)
        }),
{
    let (vr, end) = p_var(b, i)->Ok_0;
    lemma_p_string_bytes(b, i);
    let (name, i1) = p_string(b, i)->Ok_0;
    lemma_p_u32_bytes(b, i1);
    let (scope, i2) = p_u32(b, i1)->Some_0;
    lemma_p_u32_bytes(b, i2);
    let (tid, i3) = p_u32(b, i2)->Some_0;
    lemma_p_u32_bytes(b, i3);
    let (arr, i4) = p_u32(b, i3)->Some_0;
    let ty = VariableType::spec_ty_of_id(tid);
    assert(ty.spec_id() == tid);
    let v = var_of_raw(vr);
    assert(spec_arr_field(v.array_length) == arr);
    if ty is Sampler2D {
        assert(spec_default_block(v.ty, v.array_length) =~= Seq::<u8>::empty());
        assert(b.subrange(i, end) =~= b.subrange(i, i1) + b.subrange(i1, i2) + b.subrange(i2, i3)
            + b.subrange(i3, i4));
        assert(spec_var_bytes(v) =~= b.subrange(i, end));
    } else {
        lemma_p_u32_bytes(b, i4);
        let (cnt, i5) = p_u32(b, i4)->Some_0;
        lemma_p_words_bytes(b, i5, cnt as nat);
        let (ws, i6) = p_words(b, i5, cnt as nat)->Ok_0;
        if vr.arr_raw <= 1 {
            assert(ws.len() == ty.spec_arity() as nat);
            assert(cnt == ty.spec_arity() as u32);
            assert(spec_default_block(v.ty, v.array_length) =~= spec_u32_to_le_bytes(cnt)
                + spec_words_bytes(ws));
        } else {
            assert(ws.len() == 0);
            assert(cnt == 0);
            assert(spec_words_bytes(ws) =~= Seq::<u8>::empty());
            assert(spec_default_block(v.ty, v.array_length) =~= spec_u32_to_le_bytes(cnt)
                + spec_words_bytes(ws));
        }
        assert(b.subrange(i, end) =~= b.subrange(i, i1) + b.subrange(i1, i2) + b.subrange(i2, i3)
            + b.subrange(i3, i4) + b.subrange(i4, i5) + b.subrange(i5, i6));
        assert(spec_var_bytes(v) =~= b.subrange(i, end));
    }
}

/// Prepending a record to a table prepends its bytes to the serialization.
proof fn lemma_vars_bytes_cons(v: VarView, rest: Seq<VarView>)
    ensures
        spec_vars_bytes(seq![v] + rest) == spec_var_bytes(v) + spec_vars_bytes(rest),
    decreases rest,
{
    if rest.len() == 0 {
        let one = seq![v] + rest;
        assert(one =~= seq![v]);
        assert(one.drop_last() =~= Seq::<VarView>::empty());
        assert(one.last() == v);
        assert(spec_vars_bytes(Seq::<VarView>::empty()) == Seq::<u8>::empty());
        assert(spec_vars_bytes(one) =~= spec_var_bytes(v) + spec_vars_bytes(rest));
    } else {
        let whole = seq![v] + rest;
        assert(whole.drop_last() =~= seq![v] + rest.drop_last());
        assert(whole.last() == rest.last());
        lemma_vars_bytes_cons(v, rest.drop_last());
        assert(spec_vars_bytes(whole) =~= spec_var_bytes(v) + spec_vars_bytes(rest));
    }
}

/// A parsed canonical table re-serializes to exactly its bytes.
proof fn lemma_p_vars_bytes(b: Seq<u8>, i: int, n: nat)
    requires
        0 <= i <= b.len(),
        p_vars(b, i, n) is Ok,
        forall|k: int|
            0 <= k < p_vars(b, i, n)->Ok_0.0.len() ==> canonical_var(
                #[trigger] p_vars(b, i, n)->Ok_0.0[k],
            ),
    ensures
        ({
            let (vars, end) = p_vars(b, i, n)->Ok_0;
            vars.len() == n && i <= end <= b.len() && spec_vars_bytes(vars_of_raw(vars))
                == b.subrange(i, end)
        }),
    decreases n,
{
    let (vars, end) = p_vars(b, i, n)->Ok_0;
    if n == 0 {
        assert(vars_of_raw(vars) =~= Seq::<VarView>::empty());
        assert(spec_vars_bytes(vars_of_raw(vars)) =~= b.subrange(i, end));
    } else {
        let (vr, j) = p_var(b, i)->Ok_0;
        assert(vars[0] == vr);
        lemma_p_var_bytes(b, i);
        let (rest, _) = p_vars(b, j, (n - 1) as nat)->Ok_0;
        assert(forall|k: int| 0 <= k < rest.len() ==> rest[k] == #[trigger] vars[k + 1]);
        assert forall|k: int| 0 <= k < rest.len() implies canonical_var(#[trigger] rest[k]) by {
            assert(rest[k] == vars[k + 1]);
        }
        lemma_p_vars_bytes(b, j, (n - 1) as nat);
        assert(vars_of_raw(vars) =~= seq![var_of_raw(vr)] + vars_of_raw(rest));
        lemma_vars_bytes_cons(var_of_raw(vr), vars_of_raw(rest));
        assert(b.subrange(i, end) =~= b.subrange(i, j) + b.subrange(j, end));
    }
}

/// UTF-8 encoding distributes over concatenation.
proof fn lemma_encode_utf8_concat(a: Seq<char>, c: Seq<char>)
    ensures
        encode_utf8(a + c) == encode_utf8(a) + encode_utf8(c),
    decreases a,
{
    if a.len() == 0 {
        assert(a + c =~= c);
        assert(encode_utf8(a) =~= Seq::<u8>::empty());
        assert(encode_utf8(a + c) =~= encode_utf8(a) + encode_utf8(c));
    } else {
        let whole = a + c;
        assert(whole.drop_first() =~= a.drop_first() + c);
        assert(whole[0] == a[0]);
        lemma_encode_utf8_concat(a.drop_first(), c);
        assert(encode_utf8(whole) =~= encode_utf8(a) + encode_utf8(c));
    }
}

/// True when a parsed stage text is in the form the encoder emits: at
/// least the NUL terminator, and the terminator last.
pub open spec fn canonical_text(t: Seq<char>) -> bool {
    t.len() >= 1 && t.last() == '\0'
}

/// Stripping the terminator and appending a NUL byte restores the blob.
proof fn lemma_stage_text_bytes(t: Seq<char>)
    requires
        canonical_text(t),
    ensures
        encode_utf8(source_of_text(t)) + seq![0u8] == encode_utf8(t),
{
    assert(t =~= source_of_text(t) + seq!['\0']);
    lemma_encode_utf8_concat(source_of_text(t), seq!['\0']);
    assert(('\0' as u32) == 0);
    assert((0u32 & 0x7F) as u8 == 0u8) by (bit_vector);
    let one = seq!['\0'];
    assert(one.drop_first() =~= Seq::<char>::empty());
    assert(one[0] == '\0');
    assert(encode_utf8(Seq::<char>::empty()) == Seq::<u8>::empty());
    assert(vstd::utf8::encode_scalar(0) =~= seq![0u8]);
    assert(encode_utf8(one) =~= seq![0u8]);
}

/// True when a parsed container is in the form the encoder emits.
pub open spec fn canonical_container(raw: ContainerRaw) -> bool {
    &&& forall|k: int| 0 <= k < raw.vars.len() ==> canonical_var(#[trigger] raw.vars[k])
    &&& canonical_text(raw.vs_text)
    &&& canonical_text(raw.ps_text)
}

/// Round trip, codec side: a container parsed from canonical bytes
/// re-serializes to exactly the bytes it was parsed from, trailer aside.
#[verifier::rlimit(100)]
pub proof fn lemma_parse_then_serialize(b: Seq<u8>)
    requires
        p_container(b) is Ok,
        canonical_container(p_container(b)->Ok_0.0),
    ensures
        ({
            let (raw, end) = p_container(b)->Ok_0;
            0 <= end <= b.len() && spec_container_bytes(view_of_raw(raw)) == b.subrange(0, end)
        }),
{
    let (raw, end) = p_container(b)->Ok_0;
    let c = view_of_raw(raw);
    lemma_p_string_bytes(b, 0);
    let (_, i1) = p_string(b, 0)->Ok_0;
    lemma_p_u32_bytes(b, i1);
    let (n, i2) = p_u32(b, i1)->Some_0;
    lemma_p_vars_bytes(b, i2, n as nat);
    let (_, i3) = p_vars(b, i2, n as nat)->Ok_0;
    lemma_p_string_bytes(b, i3);
    let (_, i4) = p_string(b, i3)->Ok_0;
    lemma_p_string_bytes(b, i4);
    let (_, i5) = p_string(b, i4)->Ok_0;
    lemma_p_string_bytes(b, i5);
    let (_, i6) = p_string(b, i5)->Ok_0;
    lemma_p_string_bytes(b, i6);
    let (_, i7) = p_string(b, i6)->Ok_0;
    lemma_p_u32_bytes(b, i7);
    let (m1, i8) = p_u32(b, i7)->Some_0;
    lemma_p_idxs_bytes(b, i8, m1 as nat, n as nat);
    let (_, i9) = p_idxs(b, i8, m1 as nat, n as nat)->Ok_0;
    lemma_p_u32_bytes(b, i9);
    let (m2, i10) = p_u32(b, i9)->Some_0;
    lemma_p_idxs_bytes(b, i10, m2 as nat, n as nat);
    assert(c.uniforms.len() == n as nat);
    assert(c.uniforms.len() as u32 == n);
    assert(c.vs_refs.len() as u32 == m1);
    assert(c.ps_refs.len() as u32 == m2);
    lemma_stage_text_bytes(raw.vs_text);
    lemma_stage_text_bytes(raw.ps_text);
    assert(spec_stage_bytes(c.vs_name, c.vs_source) == b.subrange(i3, i5)) by {
        assert(spec_lp(encode_utf8(c.vs_source) + seq![0u8]) == spec_lp_str(raw.vs_text));
        assert(b.subrange(i3, i5) =~= b.subrange(i3, i4) + b.subrange(i4, i5));
    }
    assert(spec_stage_bytes(c.ps_name, c.ps_source) == b.subrange(i5, i7)) by {
        assert(spec_lp(encode_utf8(c.ps_source) + seq![0u8]) == spec_lp_str(raw.ps_text));
        assert(b.subrange(i5, i7) =~= b.subrange(i5, i6) + b.subrange(i6, i7));
    }
    assert(spec_refs_bytes(c.vs_refs) == b.subrange(i7, i9)) by {
        assert(b.subrange(i7, i9) =~= b.subrange(i7, i8) + b.subrange(i8, i9));
    }
    assert(spec_refs_bytes(c.ps_refs) == b.subrange(i9, end)) by {
        assert(b.subrange(i9, end) =~= b.subrange(i9, i10) + b.subrange(i10, end));
    }
    assert(b.subrange(0, end) =~= b.subrange(0, i1) + b.subrange(i1, i2) + b.subrange(i2, i3)
        + b.subrange(i3, i5) + b.subrange(i5, i7) + b.subrange(i7, i9) + b.subrange(i9, end));
    assert(spec_container_bytes(c) =~= b.subrange(0, end));
}

/// Round trip, full pipeline: decoding a canonical, trailer-free container
/// and re-encoding it from its extracted sources reproduces the original
/// bytes, provided the liveness analysis of the two sources rebuilds the
/// stored uniform table and reference lists.
pub proof fn lemma_round_trip(b: Seq<u8>, vs_tree: TranslationUnit, ps_tree: TranslationUnit)
    requires
        p_container(b) is Ok,
        p_container(b)->Ok_0.1 == b.len(),
        canonical_container(p_container(b)->Ok_0.0),
        spec_merge(live_views(vs_tree), live_views(ps_tree)) == vars_of_raw(
            p_container(b)->Ok_0.0.vars,
        ),
        spec_resolve(live_views(vs_tree), vars_of_raw(p_container(b)->Ok_0.0.vars))
            == p_container(b)->Ok_0.0.vs_refs,
        spec_resolve(live_views(ps_tree), vars_of_raw(p_container(b)->Ok_0.0.vars))
            == p_container(b)->Ok_0.0.ps_refs,
    ensures
        ({
            let raw = p_container(b)->Ok_0.0;
            spec_container_bytes(
                build_view(
                    raw.name,
                    raw.vs_name,
                    source_of_text(raw.vs_text),
                    vs_tree,
                    raw.ps_name,
                    source_of_text(raw.ps_text),
                    ps_tree,
                ),
            ) == b
        }),
{
    let raw = p_container(b)->Ok_0.0;
    lemma_parse_then_serialize(b);
    assert(build_view(
        raw.name,
        raw.vs_name,
        source_of_text(raw.vs_text),
        vs_tree,
        raw.ps_name,
        source_of_text(raw.ps_text),
        ps_tree,
    ) == view_of_raw(raw));
    assert(b.subrange(0, b.len() as int) =~= b);
}

/// A well-formed record for the encoder: a declared array length above 1,
/// and a name within the length bound of the format.
pub open spec fn wf_var(v: VarView) -> bool {
    &&& (v.array_length matches Some(x) ==> x > 1)
    &&& encode_utf8(v.name).len() <= u32::MAX
}

/// A well-formed container for the encoder: all strings and counts within
/// the 32-bit bounds of the format, well-formed records, and reference
/// indices inside the table.
pub open spec fn wf_view(c: ContainerView) -> bool {
    &&& encode_utf8(c.name).len() <= u32::MAX
    &&& encode_utf8(c.vs_name).len() <= u32::MAX
    &&& encode_utf8(c.vs_source).len() + 1 <= u32::MAX
    &&& encode_utf8(c.ps_name).len() <= u32::MAX
    &&& encode_utf8(c.ps_source).len() + 1 <= u32::MAX
    &&& c.uniforms.len() <= u32::MAX
    &&& c.vs_refs.len() <= u32::MAX
    &&& c.ps_refs.len() <= u32::MAX
    &&& (forall|k: int| 0 <= k < c.uniforms.len() ==> wf_var(#[trigger] c.uniforms[k]))
    &&& (forall|k: int|
        0 <= k < c.vs_refs.len() ==> (#[trigger] c.vs_refs[k]) < c.uniforms.len())
    &&& (forall|k: int|
        0 <= k < c.ps_refs.len() ==> (#[trigger] c.ps_refs[k]) < c.uniforms.len())
}

/// A record as the decoder returns it after a round trip: the scope is
/// uniform and the default block is the one the encoder emits.
pub open spec fn canonical_form_var(v: VarView) -> VarView {
    VarView {
        name: v.name,
        ty: v.ty,
        default_data: if v.ty is Sampler2D || v.array_length is Some {
            Seq::empty()
        } else {
            spec_zeros(v.ty.spec_arity() as nat)
        },
        scope: VariableScope::UNIFORM,
        array_length: v.array_length,
    }
}

/// A container as the decoder returns it after a round trip.
pub open spec fn canonical_form(c: ContainerView) -> ContainerView {
    ContainerView { uniforms: c.uniforms.map_values(|v: VarView| canonical_form_var(v)), ..c }
}

/// A word placed at `i` parses back at `i`.
proof fn lemma_p_u32_at(b: Seq<u8>, i: int, x: u32)
    requires
        0 <= i,
        i + 4 <= b.len(),
        b.subrange(i, i + 4) == spec_u32_to_le_bytes(x),
    ensures
        p_u32(b, i) == Some((x, i + 4)),
{
    vstd::bytes::lemma_auto_spec_u32_to_from_le_bytes();
    assert(spec_u32_to_le_bytes(x).len() == 4);
}

/// A length-prefixed string placed at `i` parses back at `i`.
proof fn lemma_p_string_at(b: Seq<u8>, i: int, s: Seq<char>)
    requires
        0 <= i,
        encode_utf8(s).len() <= u32::MAX,
        i + spec_lp_str(s).len() <= b.len(),
        b.subrange(i, i + spec_lp_str(s).len()) == spec_lp_str(s),
    ensures
        p_string(b, i) == Ok::<_, KshError>((s, i + spec_lp_str(s).len())),
{
    broadcast use vstd::utf8::encode_utf8_valid_utf8;
    broadcast use vstd::utf8::encode_utf8_decode_utf8;

    vstd::bytes::lemma_auto_spec_u32_to_from_le_bytes();
    let e = encode_utf8(s);
    let n = e.len() as int;
    let j = i + spec_lp_str(s).len();
    assert(spec_u32_to_le_bytes(n as u32).len() == 4);
    assert(spec_lp_str(s).len() == 4 + n);
    assert forall|k: int| 0 <= k < 4 implies #[trigger] b.subrange(i, i + 4)[k]
        == spec_u32_to_le_bytes(n as u32)[k] by {
        assert(b.subrange(i, i + 4)[k] == b.subrange(i, j)[k]);
        assert(spec_lp_str(s)[k] == spec_u32_to_le_bytes(n as u32)[k]);
    }
    assert(b.subrange(i, i + 4) =~= spec_u32_to_le_bytes(n as u32));
    lemma_p_u32_at(b, i, n as u32);
    assert forall|k: int| 0 <= k < n implies #[trigger] b.subrange(i + 4, j)[k] == e[k] by {
        assert(b.subrange(i + 4, j)[k] == b.subrange(i, j)[k + 4]);
        assert(spec_lp_str(s)[k + 4] == e[k]);
    }
    assert(b.subrange(i + 4, j) =~= e);
}

/// A serialized word list placed at `i` parses back at `i`.
proof fn lemma_p_words_at(b: Seq<u8>, i: int, ws: Seq<u32>)
    requires
        0 <= i,
        i + spec_words_bytes(ws).len() <= b.len(),
        b.subrange(i, i + spec_words_bytes(ws).len()) == spec_words_bytes(ws),
    ensures
        spec_words_bytes(ws).len() == 4 * ws.len(),
        p_words(b, i, ws.len()) == Ok::<_, KshError>((ws, i + spec_words_bytes(ws).len())),
    decreases ws,
{
    vstd::bytes::lemma_auto_spec_u32_to_from_le_bytes();
    lemma_words_bytes_len(ws);
    if ws.len() == 0 {
        assert(ws =~= Seq::<u32>::empty());
    } else {
        let rest = ws.drop_first();
        assert(spec_u32_to_le_bytes(ws[0]).len() == 4);
        assert(ws =~= seq![ws[0]] + rest);
        lemma_words_bytes_cons(ws[0], rest);
        lemma_words_bytes_len(rest);
        let j = i + spec_words_bytes(ws).len();
        let restlen = spec_words_bytes(rest).len();
        assert forall|k: int| 0 <= k < 4 implies #[trigger] b.subrange(i, i + 4)[k]
            == spec_u32_to_le_bytes(ws[0])[k] by {
            assert(b.subrange(i, i + 4)[k] == b.subrange(i, j)[k]);
            assert(spec_words_bytes(ws)[k] == spec_u32_to_le_bytes(ws[0])[k]);
        }
        assert(b.subrange(i, i + 4) =~= spec_u32_to_le_bytes(ws[0]));
        lemma_p_u32_at(b, i, ws[0]);
        assert forall|k: int|
            0 <= k < restlen implies #[trigger] b.subrange(i + 4, i + 4 + restlen)[k]
            == spec_words_bytes(rest)[k] by {
            assert(b.subrange(i + 4, i + 4 + restlen)[k] == b.subrange(i, j)[k + 4]);
            assert(spec_words_bytes(ws)[k + 4] == spec_words_bytes(rest)[k]);
        }
        assert(b.subrange(i + 4, i + 4 + restlen) =~= spec_words_bytes(rest));
        lemma_p_words_at(b, i + 4, rest);
        assert(p_words(b, i + 4, rest.len()) == Ok::<_, KshError>((rest, i + 4 + restlen)));
        assert(p_words(b, i, ws.len()) == Ok::<_, KshError>(
            (seq![ws[0]] + rest, i + 4 + restlen),
        ));
        assert(seq![ws[0]] + rest == ws);
    }
}

/// A serialized word list takes four bytes per word.
proof fn lemma_words_bytes_len(ws: Seq<u32>)
    ensures
        spec_words_bytes(ws).len() == 4 * ws.len(),
    decreases ws,
{
    vstd::bytes::lemma_auto_spec_u32_to_from_le_bytes();
    if ws.len() > 0 {
        assert(spec_u32_to_le_bytes(ws.last()).len() == 4);
        lemma_words_bytes_len(ws.drop_last());
    }
}

/// A concatenation placed at `i` splits into its two parts in place.
proof fn lemma_subrange_split(b: Seq<u8>, i: int, x: Seq<u8>, y: Seq<u8>)
    requires
        0 <= i,
        i + x.len() + y.len() <= b.len(),
        b.subrange(i, i + x.len() + y.len()) == x + y,
    ensures
        b.subrange(i, i + x.len()) == x,
        b.subrange(i + x.len(), i + x.len() + y.len()) == y,
{
    let j = i + x.len() + y.len();
    assert forall|k: int| 0 <= k < x.len() implies #[trigger] b.subrange(i, i + x.len())[k]
        == x[k] by {
        assert(b.subrange(i, i + x.len())[k] == b.subrange(i, j)[k]);
        assert((x + y)[k] == x[k]);
    }
    assert(b.subrange(i, i + x.len()) =~= x);
    assert forall|k: int|
        0 <= k < y.len() implies #[trigger] b.subrange(i + x.len(), j)[k] == y[k] by {
        assert(b.subrange(i + x.len(), j)[k] == b.subrange(i, j)[k + x.len()]);
        assert((x + y)[k + x.len()] == y[k]);
    }
    assert(b.subrange(i + x.len(), j) =~= y);
}

/// A serialized well-formed record placed at `i` parses back at `i`, in
/// the canonical form the decoder returns.
proof fn lemma_p_var_at(b: Seq<u8>, i: int, v: VarView)
    requires
        0 <= i,
        wf_var(v),
        i + spec_var_bytes(v).len() <= b.len(),
        b.subrange(i, i + spec_var_bytes(v).len()) == spec_var_bytes(v),
    ensures
        p_var(b, i) is Ok,
        p_var(b, i)->Ok_0.1 == i + spec_var_bytes(v).len(),
        var_of_raw(p_var(b, i)->Ok_0.0) == canonical_form_var(v),
{
    vstd::bytes::lemma_auto_spec_u32_to_from_le_bytes();
    let name_b = spec_lp_str(v.name);
    let scope_b = spec_u32_to_le_bytes(0);
    let tid_b = spec_u32_to_le_bytes(v.ty.spec_id());
    let arr_b = spec_u32_to_le_bytes(spec_arr_field(v.array_length));
    let block_b = spec_default_block(v.ty, v.array_length);
    assert(scope_b.len() == 4 && tid_b.len() == 4 && arr_b.len() == 4);
    let i1 = i + name_b.len();
    let i2 = i1 + 4;
    let i3 = i2 + 4;
    let i4 = i3 + 4;
    let end = i4 + block_b.len();
    assert(spec_var_bytes(v) == name_b + scope_b + tid_b + arr_b + block_b);
    assert(name_b + scope_b + tid_b + arr_b + block_b =~= (name_b + scope_b + tid_b + arr_b)
        + block_b);
    lemma_subrange_split(b, i, name_b + scope_b + tid_b + arr_b, block_b);
    assert(name_b + scope_b + tid_b + arr_b =~= (name_b + scope_b + tid_b) + arr_b);
    lemma_subrange_split(b, i, name_b + scope_b + tid_b, arr_b);
    assert(name_b + scope_b + tid_b =~= (name_b + scope_b) + tid_b);
    lemma_subrange_split(b, i, name_b + scope_b, tid_b);
    lemma_subrange_split(b, i, name_b, scope_b);
    lemma_p_string_at(b, i, v.name);
    lemma_p_u32_at(b, i1, 0);
    lemma_p_u32_at(b, i2, v.ty.spec_id());
    assert(VariableType::spec_valid_id(v.ty.spec_id()));
    assert(VariableType::spec_ty_of_id(v.ty.spec_id()) == v.ty);
    lemma_p_u32_at(b, i3, spec_arr_field(v.array_length));
    if v.ty is Sampler2D {
        assert(block_b.len() == 0);
    } else {
        let zs = if v.array_length is None {
            spec_zeros(v.ty.spec_arity() as nat)
        } else {
            Seq::<u32>::empty()
        };
        let cnt: u32 = if v.array_length is None {
            v.ty.spec_arity() as u32
        } else {
            0
        };
        lemma_words_bytes_len(zs);
        assert(block_b == spec_u32_to_le_bytes(cnt) + spec_words_bytes(zs));
        assert(b.subrange(i4, end) == block_b);
        lemma_subrange_split(b, i4, spec_u32_to_le_bytes(cnt), spec_words_bytes(zs));
        lemma_p_u32_at(b, i4, cnt);
        lemma_p_words_at(b, i4 + 4, zs);
        assert(cnt as nat == zs.len());
    }
    assert(var_of_raw(p_var(b, i)->Ok_0.0) == canonical_form_var(v));
}

/// A serialized well-formed table placed at `i` parses back at `i`.
proof fn lemma_p_vars_at(b: Seq<u8>, i: int, vs: Seq<VarView>)
    requires
        0 <= i,
        forall|k: int| 0 <= k < vs.len() ==> wf_var(#[trigger] vs[k]),
        i + spec_vars_bytes(vs).len() <= b.len(),
        b.subrange(i, i + spec_vars_bytes(vs).len()) == spec_vars_bytes(vs),
    ensures
        p_vars(b, i, vs.len()) is Ok,
        p_vars(b, i, vs.len())->Ok_0.1 == i + spec_vars_bytes(vs).len(),
        vars_of_raw(p_vars(b, i, vs.len())->Ok_0.0) == vs.map_values(
            |v: VarView| canonical_form_var(v),
        ),
    decreases vs,
{
    if vs.len() == 0 {
        assert(b.subrange(i, i) =~= Seq::<u8>::empty());
        assert(vars_of_raw(Seq::<VarRaw>::empty()) =~= vs.map_values(
            |v: VarView| canonical_form_var(v),
        ));
    } else {
        let first = vs[0];
        let rest = vs.drop_first();
        assert(vs =~= seq![first] + rest);
        lemma_vars_bytes_cons(first, rest);
        let fb = spec_var_bytes(first);
        let rb = spec_vars_bytes(rest);
        assert(b.subrange(i, i + fb.len() + rb.len()) == fb + rb);
        lemma_subrange_split(b, i, fb, rb);
        lemma_p_var_at(b, i, first);
        let j = i + fb.len();
        lemma_p_vars_at(b, j, rest);
        let (vr, _) = p_var(b, i)->Ok_0;
        let (vrest, _) = p_vars(b, j, rest.len())->Ok_0;
        assert(p_vars(b, i, vs.len()) == Ok::<_, KshError>(
            (seq![vr] + vrest, i + fb.len() + rb.len()),
        ));
        let mapped = vs.map_values(|v: VarView| canonical_form_var(v));
        assert(vars_of_raw(vrest).len() == rest.len());
        assert forall|k: int|
            0 <= k < vs.len() implies #[trigger] vars_of_raw(seq![vr] + vrest)[k]
            == mapped[k] by {
            if k == 0 {
                assert((seq![vr] + vrest)[0] == vr);
                assert(vars_of_raw(seq![vr] + vrest)[0] == var_of_raw(vr));
                assert(mapped[0] == canonical_form_var(vs[0]));
            } else {
                assert((seq![vr] + vrest)[k] == vrest[k - 1]);
                assert(vars_of_raw(seq![vr] + vrest)[k] == var_of_raw(vrest[k - 1]));
                assert(var_of_raw(vrest[k - 1]) == vars_of_raw(vrest)[k - 1]);
                assert(vars_of_raw(vrest)[k - 1] == rest.map_values(
                    |v: VarView| canonical_form_var(v),
                )[k - 1]);
                assert(rest[k - 1] == vs[k]);
                assert(mapped[k] == canonical_form_var(vs[k]));
            }
        }
        assert(vars_of_raw(seq![vr] + vrest) =~= mapped);
    }
}

/// A serialized in-range reference list placed at `i` parses back at `i`.
proof fn lemma_p_idxs_at(b: Seq<u8>, i: int, rs: Seq<u32>, nvars: nat)
    requires
        0 <= i,
        forall|k: int| 0 <= k < rs.len() ==> ((#[trigger] rs[k]) as nat) < nvars,
        i + spec_words_bytes(rs).len() <= b.len(),
        b.subrange(i, i + spec_words_bytes(rs).len()) == spec_words_bytes(rs),
    ensures
        p_idxs(b, i, rs.len(), nvars) == Ok::<_, KshError>(
            (rs, i + spec_words_bytes(rs).len()),
        ),
    decreases rs,
{
    vstd::bytes::lemma_auto_spec_u32_to_from_le_bytes();
    lemma_words_bytes_len(rs);
    if rs.len() == 0 {
        assert(rs =~= Seq::<u32>::empty());
    } else {
        let rest = rs.drop_first();
        assert(rs =~= seq![rs[0]] + rest);
        lemma_words_bytes_cons(rs[0], rest);
        lemma_words_bytes_len(rest);
        assert(spec_u32_to_le_bytes(rs[0]).len() == 4);
        assert(b.subrange(i, i + 4 + spec_words_bytes(rest).len()) == spec_u32_to_le_bytes(rs[0])
            + spec_words_bytes(rest));
        lemma_subrange_split(b, i, spec_u32_to_le_bytes(rs[0]), spec_words_bytes(rest));
        lemma_p_u32_at(b, i, rs[0]);
        assert(forall|k: int| 0 <= k < rest.len() ==> rest[k] == #[trigger] rs[k + 1]);
        lemma_p_idxs_at(b, i + 4, rest, nvars);
        assert(p_idxs(b, i, rs.len(), nvars) == Ok::<_, KshError>(
            (seq![rs[0]] + rest, i + spec_words_bytes(rs).len()),
        ));
        assert(seq![rs[0]] + rest == rs);
    }
}

/// Round trip, encoder side: the serialization of a well-formed container
/// parses back whole, to the same container with its default blocks and
/// scopes in the canonical form the decoder returns.
#[verifier::rlimit(100)]
pub proof fn lemma_serialize_then_parse(c: ContainerView)
    requires
        wf_view(c),
    ensures
        p_container(spec_container_bytes(c)) is Ok,
        p_container(spec_container_bytes(c))->Ok_0.1 == spec_container_bytes(c).len(),
        view_of_raw(p_container(spec_container_bytes(c))->Ok_0.0) == canonical_form(c),
{
    vstd::bytes::lemma_auto_spec_u32_to_from_le_bytes();
    let b = spec_container_bytes(c);
    let name_b = spec_lp_str(c.name);
    let n_b = spec_u32_to_le_bytes(c.uniforms.len() as u32);
    let vars_b = spec_vars_bytes(c.uniforms);
    let vstage_b = spec_stage_bytes(c.vs_name, c.vs_source);
    let pstage_b = spec_stage_bytes(c.ps_name, c.ps_source);
    let vrefs_b = spec_refs_bytes(c.vs_refs);
    let prefs_b = spec_refs_bytes(c.ps_refs);
    assert(n_b.len() == 4);
    assert(b.subrange(0, b.len() as int) =~= b);
    assert(b =~= (name_b + n_b + vars_b + vstage_b + pstage_b + vrefs_b) + prefs_b);
    lemma_subrange_split(b, 0, name_b + n_b + vars_b + vstage_b + pstage_b + vrefs_b, prefs_b);
    assert(name_b + n_b + vars_b + vstage_b + pstage_b + vrefs_b =~= (name_b + n_b + vars_b
        + vstage_b + pstage_b) + vrefs_b);
    lemma_subrange_split(b, 0, name_b + n_b + vars_b + vstage_b + pstage_b, vrefs_b);
    assert(name_b + n_b + vars_b + vstage_b + pstage_b =~= (name_b + n_b + vars_b + vstage_b)
        + pstage_b);
    lemma_subrange_split(b, 0, name_b + n_b + vars_b + vstage_b, pstage_b);
    assert(name_b + n_b + vars_b + vstage_b =~= (name_b + n_b + vars_b) + vstage_b);
    lemma_subrange_split(b, 0, name_b + n_b + vars_b, vstage_b);
    assert(name_b + n_b + vars_b =~= (name_b + n_b) + vars_b);
    lemma_subrange_split(b, 0, name_b + n_b, vars_b);
    lemma_subrange_split(b, 0, name_b, n_b);
    let i1 = name_b.len() as int;
    let i2 = i1 + 4;
    let i3 = i2 + vars_b.len();
    let i4 = i3 + vstage_b.len();
    let i5 = i4 + pstage_b.len();
    let i6 = i5 + vrefs_b.len();
    lemma_p_string_at(b, 0, c.name);
    lemma_p_u32_at(b, i1, c.uniforms.len() as u32);
    lemma_p_vars_at(b, i2, c.uniforms);
    lemma_stage_at(b, i3, c.vs_name, c.vs_source);
    lemma_stage_at(b, i4, c.ps_name, c.ps_source);
    lemma_refs_at(b, i5, c.vs_refs, c.uniforms.len() as nat);
    lemma_refs_at(b, i6, c.ps_refs, c.uniforms.len() as nat);
    assert(view_of_raw(p_container(b)->Ok_0.0) == canonical_form(c));
}

/// A serialized stage placed at `i` parses back as its two strings, the
/// text bearing the NUL terminator the view strips again.
proof fn lemma_stage_at(b: Seq<u8>, i: int, name: Seq<char>, source: Seq<char>)
    requires
        0 <= i,
        encode_utf8(name).len() <= u32::MAX,
        encode_utf8(source).len() + 1 <= u32::MAX,
        i + spec_stage_bytes(name, source).len() <= b.len(),
        b.subrange(i, i + spec_stage_bytes(name, source).len()) == spec_stage_bytes(name, source),
    ensures
        p_string(b, i) == Ok::<_, KshError>((name, i + spec_lp_str(name).len())),
        ({
            let j = i + spec_lp_str(name).len();
            let t = source.push('\0');
            p_string(b, j) == Ok::<_, KshError>(
                (t, i + spec_stage_bytes(name, source).len()),
            ) && source_of_text(t) == source && canonical_text(t)
        }),
{
    let t = source.push('\0');
    assert(t.last() == '\0');
    assert(source_of_text(t) =~= source);
    lemma_stage_text_bytes(t);
    assert(encode_utf8(t) == encode_utf8(source) + seq![0u8]);
    assert(spec_stage_bytes(name, source) == spec_lp_str(name) + spec_lp_str(t));
    lemma_subrange_split(b, i, spec_lp_str(name), spec_lp_str(t));
    lemma_p_string_at(b, i, name);
    lemma_p_string_at(b, i + spec_lp_str(name).len(), t);
}

/// A serialized reference list with its count placed at `i` parses back.
proof fn lemma_refs_at(b: Seq<u8>, i: int, rs: Seq<u32>, nvars: nat)
    requires
        0 <= i,
        rs.len() <= u32::MAX,
        forall|k: int| 0 <= k < rs.len() ==> ((#[trigger] rs[k]) as nat) < nvars,
        i + spec_refs_bytes(rs).len() <= b.len(),
        b.subrange(i, i + spec_refs_bytes(rs).len()) == spec_refs_bytes(rs),
    ensures
        p_u32(b, i) == Some((rs.len() as u32, i + 4)),
        p_idxs(b, i + 4, rs.len(), nvars) == Ok::<_, KshError>(
            (rs, i + spec_refs_bytes(rs).len()),
        ),
{
    vstd::bytes::lemma_auto_spec_u32_to_from_le_bytes();
    assert(spec_u32_to_le_bytes(rs.len() as u32).len() == 4);
    lemma_subrange_split(b, i, spec_u32_to_le_bytes(rs.len() as u32), spec_words_bytes(rs));
    lemma_p_u32_at(b, i, rs.len() as u32);
    lemma_p_idxs_at(b, i + 4, rs, nvars);
}

/// True when every declared uniform of the file is well-formed for the
/// encoder: any explicit array dimension is above 1 and the name stays
/// within the length bound of the format.
pub open spec fn wf_declared_uniforms(tu: TranslationUnit) -> bool {
    forall|j: int|
        0 <= j < crate::analyzer::uniform_views(tu.decls@).len() ==> wf_var(
            #[trigger] crate::analyzer::uniform_views(tu.decls@)[j],
        )
}

/// Every record of the merged table of two well-formed files is
/// well-formed.
proof fn lemma_merged_vars_wf(vs_tree: TranslationUnit, ps_tree: TranslationUnit)
    requires
        wf_declared_uniforms(vs_tree),
        wf_declared_uniforms(ps_tree),
    ensures
        forall|k: int|
            0 <= k < spec_merge(live_views(vs_tree), live_views(ps_tree)).len() ==> wf_var(
                #[trigger] spec_merge(live_views(vs_tree), live_views(ps_tree))[k],
            ),
{
    let vl = live_views(vs_tree);
    let pl = live_views(ps_tree);
    let m = spec_merge(vl, pl);
    crate::reconcile::lemma_merge_structure(vl, pl);
    assert forall|k: int| 0 <= k < m.len() implies wf_var(#[trigger] m[k]) by {
        if k < vl.len() {
            assert(m.subrange(0, vl.len() as int)[k] == m[k]);
            lemma_live_var_wf(vs_tree, k);
        } else {
            let j = choose|j: int| 0 <= j < pl.len() && pl[j] == m[k];
            lemma_live_var_wf(ps_tree, j);
        }
    }
}

/// Every live uniform of a well-formed file is well-formed.
proof fn lemma_live_var_wf(tu: TranslationUnit, k: int)
    requires
        wf_declared_uniforms(tu),
        0 <= k < live_views(tu).len(),
    ensures
        wf_var(live_views(tu)[k]),
{
    let uv = crate::analyzer::uniform_views(tu.decls@);
    let pred = |v: VarView| crate::analyzer::tu_uses(tu).contains(v.name);
    crate::analyzer::lemma_filter_subset(uv, pred, k);
    let j = choose|j: int| 0 <= j < uv.len() && uv[j] == uv.filter(pred)[k];
    assert(wf_var(uv[j]));
}

/// Law: the container the encoder emits is well-formed, so its bytes parse
/// back whole, to its canonical form.  With `lemma_round_trip` this closes
/// the loop in both directions.
pub proof fn lemma_build_then_parse(
    file_name: Seq<char>,
    vs_name: Seq<char>,
    vs_source: Seq<char>,
    vs_tree: TranslationUnit,
    ps_name: Seq<char>,
    ps_source: Seq<char>,
    ps_tree: TranslationUnit,
)
    requires
        encode_utf8(file_name).len() <= u32::MAX,
        encode_utf8(vs_name).len() <= u32::MAX,
        encode_utf8(vs_source).len() + 1 <= u32::MAX,
        encode_utf8(ps_name).len() <= u32::MAX,
        encode_utf8(ps_source).len() + 1 <= u32::MAX,
        vs_tree.decls@.len() + ps_tree.decls@.len() <= u32::MAX,
        wf_declared_uniforms(vs_tree),
        wf_declared_uniforms(ps_tree),
    ensures
        ({
            let c = build_view(
                file_name,
                vs_name,
                vs_source,
                vs_tree,
                ps_name,
                ps_source,
                ps_tree,
            );
            let b = spec_container_bytes(c);
            wf_view(c) && p_container(b) is Ok && p_container(b)->Ok_0.1 == b.len()
                && view_of_raw(p_container(b)->Ok_0.0) == canonical_form(c)
        }),
{
    let vl = live_views(vs_tree);
    let pl = live_views(ps_tree);
    let m = spec_merge(vl, pl);
    let c = build_view(file_name, vs_name, vs_source, vs_tree, ps_name, ps_source, ps_tree);
    crate::reconcile::lemma_merge_len(vl, pl);
    crate::analyzer::uniform_views(vs_tree.decls@).lemma_filter_len(
        |v: VarView| crate::analyzer::tu_uses(vs_tree).contains(v.name),
    );
    crate::analyzer::uniform_views(ps_tree.decls@).lemma_filter_len(
        |v: VarView| crate::analyzer::tu_uses(ps_tree).contains(v.name),
    );
    crate::analyzer::lemma_uniform_views_len(vs_tree.decls@);
    crate::analyzer::lemma_uniform_views_len(ps_tree.decls@);
    lemma_merged_vars_wf(vs_tree, ps_tree);
    assert forall|k: int| 0 <= k < vl.len() implies seq_contains_name(
        m,
        (#[trigger] vl[k]).name,
    ) by {
        assert(seq_contains_name(vl, vl[k].name));
        crate::reconcile::lemma_merge_covers(vl, pl, vl[k].name);
    }
    assert forall|k: int| 0 <= k < pl.len() implies seq_contains_name(
        m,
        (#[trigger] pl[k]).name,
    ) by {
        assert(seq_contains_name(pl, pl[k].name));
        crate::reconcile::lemma_merge_covers(vl, pl, pl[k].name);
    }
    crate::reconcile::lemma_resolve_indices_valid(vl, m);
    crate::reconcile::lemma_resolve_indices_valid(pl, m);
    assert(wf_view(c));
    lemma_serialize_then_parse(c);
}

/// Law: a scalar `Sampler2D` record serializes with an array-length field
/// of 1 and no default-data block at all: its record is exactly the name
/// block, the scope word 0, the type id 43, and the word 1.
pub proof fn lemma_sampler_scalar_record(v: VarView)
    requires
        v.ty == VariableType::Sampler2D,
        v.array_length is None,
    ensures
        spec_var_bytes(v) == spec_lp_str(v.name) + spec_u32_to_le_bytes(0) + spec_u32_to_le_bytes(
            43,
        ) + spec_u32_to_le_bytes(1),
        spec_var_bytes(v).len() == encode_utf8(v.name).len() + 16,
{
    vstd::bytes::lemma_auto_spec_u32_to_from_le_bytes();
    assert(spec_default_block(v.ty, v.array_length) =~= Seq::<u8>::empty());
    assert(spec_var_bytes(v) =~= spec_lp_str(v.name) + spec_u32_to_le_bytes(0)
        + spec_u32_to_le_bytes(43) + spec_u32_to_le_bytes(1));
}

} // verus!
