//! Biovision Hierarchy (`.bvh`) motion-capture decoding.
//!
//! A `HIERARCHY` block declares a joint tree with per-joint `OFFSET`s and `CHANNELS`; a
//! `MOTION` block follows with one row of samples per frame. The decoder yields one skeleton
//! and one clip. Numbers stay in the text form the file spells them in; turning them into
//! floating-point values (and composing the rotations) is left to the caller.
use vstd::prelude::*;

use crate::error::{parse_error, IoError};
use crate::gltf_scene::Interpolation;
use vstd::utf8::{decode_utf8, valid_utf8};
use crate::text::{
    chars_of, decimal, decimal_string, push_str, starts, str_from_utf8, is_float_range, string_of, word_ranges, is_float_text, parse_usize, range_is, ranges_match, usize_value, words,
};

verus! {

/// Which component of a joint's local transform one BVH channel drives.
#[derive(Clone, Copy, Debug, PartialEq, Eq, Structural)]
pub enum Channel {
    /// Translation along X.
    PosX,
    /// Translation along Y.
    PosY,
    /// Translation along Z.
    PosZ,
    /// Rotation about X, in degrees.
    RotX,
    /// Rotation about Y, in degrees.
    RotY,
    /// Rotation about Z, in degrees.
    RotZ,
}

/// The channel a `CHANNELS` word names.
pub open spec fn channel_of(w: Seq<char>) -> Option<Channel> {
    if w == "Xposition"@ {
        Some(Channel::PosX)
    } else if w == "Yposition"@ {
        Some(Channel::PosY)
    } else if w == "Zposition"@ {
        Some(Channel::PosZ)
    } else if w == "Xrotation"@ {
        Some(Channel::RotX)
    } else if w == "Yrotation"@ {
        Some(Channel::RotY)
    } else if w == "Zrotation"@ {
        Some(Channel::RotZ)
    } else {
        None
    }
}

/// A rotation channel.
pub open spec fn is_rotation(c: Channel) -> bool {
    c is RotX || c is RotY || c is RotZ
}

/// One joint as the hierarchy declares it; names and numbers are word positions.
pub struct JointDecl {
    /// Position of the joint's name word.
    pub name: int,
    /// Index of the parent joint.
    pub parent: Option<int>,
    /// Position of the first of the three `OFFSET` numbers, if the joint has one.
    pub offset: Option<int>,
    /// Position of the first channel name and the number of channels, if the joint lists any.
    pub channels: Option<(int, nat)>,
}

/// The `n` channel names at `t[p..p + n]`, if all of them are channel names.
pub open spec fn channels_at(t: Seq<Seq<char>>, p: int, n: nat) -> Option<Seq<Channel>>
    decreases n,
{
    if n == 0 {
        Some(Seq::empty())
    } else {
        match channels_at(t, p, (n - 1) as nat) {
            Some(cs) => if 0 <= p + n - 1 < t.len() {
                match channel_of(t[p + n - 1]) {
                    Some(c) => Some(cs.push(c)),
                    None => None,
                }
            } else {
                None
            },
            None => None,
        }
    }
}

/// Parses the joint whose name is the word at `name`; `t[pos]` must open its body. Gives the
/// position just past the closing brace and the joints declared so far, the new one and its
/// descendants appended in pre-order.
pub open spec fn joint_decl(
    t: Seq<Seq<char>>,
    pos: int,
    js: Seq<JointDecl>,
    parent: Option<int>,
    name: int,
) -> Option<(int, Seq<JointDecl>)>
    decreases t.len() - pos, 1int,
{
    let js1 = js.push(JointDecl { name, parent, offset: None, channels: None });
    if 0 <= pos < t.len() && t[pos] == "{"@ {
        joint_body(t, pos + 1, js1, js.len() as int)
    } else {
        None
    }
}

/// Parses the statements of the body of joint `index` from `t[pos]` up to its closing brace.
pub open spec fn joint_body(t: Seq<Seq<char>>, pos: int, js: Seq<JointDecl>, index: int) -> Option<
    (int, Seq<JointDecl>),
>
    decreases t.len() - pos, 0int,
{
    if pos < 0 || pos >= t.len() || index < 0 || index >= js.len() {
        None
    } else if t[pos] == "OFFSET"@ {
        if pos + 3 < t.len() && is_float_text(t[pos + 1]) && is_float_text(t[pos + 2])
            && is_float_text(t[pos + 3]) {
            joint_body(t, pos + 4, js.update(index, JointDecl { offset: Some(pos + 1), ..js[index] }), index)
        } else {
            None
        }
    } else if t[pos] == "CHANNELS"@ {
        if pos + 1 < t.len() {
            match usize_value(t[pos + 1]) {
                Some(n) => if channels_at(t, pos + 2, n as nat) is Some && pos + 2 + n <= t.len() {
                    joint_body(
                        t,
                        pos + 2 + n,
                        js.update(index, JointDecl { channels: Some((pos + 2, n as nat)), ..js[index] }),
                        index,
                    )
                } else {
                    None
                },
                None => None,
            }
        } else {
            None
        }
    } else if t[pos] == "JOINT"@ {
        if pos + 1 < t.len() {
            match joint_decl(t, pos + 2, js, Some(index), pos + 1) {
                Some((p2, js2)) => if pos < p2 <= t.len() {
                    joint_body(t, p2, js2, index)
                } else {
                    None
                },
                None => None,
            }
        } else {
            None
        }
    } else if t[pos] == "End"@ {
        if pos + 7 < t.len() && t[pos + 1] == "Site"@ && t[pos + 2] == "{"@ && t[pos + 3]
            == "OFFSET"@ && is_float_text(t[pos + 4]) && is_float_text(t[pos + 5])
            && is_float_text(t[pos + 6]) && t[pos + 7] == "}"@ {
            joint_body(t, pos + 8, js, index)
        } else {
            None
        }
    } else if t[pos] == "}"@ {
        Some((pos + 1, js))
    } else {
        None
    }
}


/// The error of a text that ends too early.
pub open spec fn eof_message() -> Seq<char> {
    "bvh: unexpected end of file"@
}

/// The error of word `k` when the keyword `kw` is expected there.
pub open spec fn expect_message(t: Seq<Seq<char>>, k: int, kw: Seq<char>) -> Seq<char> {
    if k < 0 || k >= t.len() {
        eof_message()
    } else {
        "bvh: expected `"@ + kw + "`, found `"@ + t[k] + "`"@
    }
}

/// The first of the words `t[p + k .. p + n]` (those the text holds) that names no channel.
pub open spec fn bad_channel_from(t: Seq<Seq<char>>, p: int, k: int, n: int) -> Option<int>
    decreases n - k,
{
    if k >= n || p + k < 0 || p + k >= t.len() {
        None
    } else if channel_of(t[p + k]) is None {
        Some(p + k)
    } else {
        bad_channel_from(t, p, k + 1, n)
    }
}

/// The first word from `k` on that is not a number.
pub open spec fn bad_sample_from(t: Seq<Seq<char>>, k: int) -> Option<int>
    decreases t.len() - k,
{
    if k < 0 || k >= t.len() {
        None
    } else if !is_float_text(t[k]) {
        Some(k)
    } else {
        bad_sample_from(t, k + 1)
    }
}

/// The error of a joint whose name is the word at `name` and whose body should open at
/// `t[pos]`, when [`joint_decl`] fails.
pub open spec fn joint_decl_error(t: Seq<Seq<char>>, pos: int, js: Seq<JointDecl>, parent: Option<int>, name: int) -> Seq<
    char,
>
    decreases t.len() - pos, 1int,
{
    let js1 = js.push(JointDecl { name, parent, offset: None, channels: None });
    if 0 <= pos < t.len() && t[pos] == "{"@ {
        joint_body_error(t, pos + 1, js1, js.len() as int)
    } else {
        expect_message(t, pos, "{"@)
    }
}

/// The error of the body of joint `index` from `t[pos]` on, when [`joint_body`] fails: the
/// first statement that does not read.
pub open spec fn joint_body_error(t: Seq<Seq<char>>, pos: int, js: Seq<JointDecl>, index: int) -> Seq<char>
    decreases t.len() - pos, 0int,
{
    if pos < 0 || pos >= t.len() || index < 0 || index >= js.len() {
        eof_message()
    } else if t[pos] == "OFFSET"@ {
        if pos + 3 < t.len() && is_float_text(t[pos + 1]) && is_float_text(t[pos + 2])
            && is_float_text(t[pos + 3]) {
            joint_body_error(t, pos + 4, js.update(index, JointDecl { offset: Some(pos + 1), ..js[index] }), index)
        } else {
            "bvh: expected three numbers after OFFSET"@
        }
    } else if t[pos] == "CHANNELS"@ {
        if pos + 1 < t.len() {
            match usize_value(t[pos + 1]) {
                Some(n) => match bad_channel_from(t, pos + 2, 0, n as int) {
                    Some(k) => "bvh: unknown channel `"@ + t[k] + "`"@,
                    None => if pos + 2 + n <= t.len() {
                        joint_body_error(
                            t,
                            pos + 2 + n,
                            js.update(index, JointDecl { channels: Some((pos + 2, n as nat)), ..js[index] }),
                            index,
                        )
                    } else {
                        eof_message()
                    },
                },
                None => "bvh: bad CHANNELS count"@,
            }
        } else {
            eof_message()
        }
    } else if t[pos] == "JOINT"@ {
        if pos + 1 < t.len() {
            match joint_decl(t, pos + 2, js, Some(index), pos + 1) {
                Some((p2, js2)) => if pos < p2 <= t.len() {
                    joint_body_error(t, p2, js2, index)
                } else {
                    "bvh: malformed joint"@
                },
                None => joint_decl_error(t, pos + 2, js, Some(index), pos + 1),
            }
        } else {
            eof_message()
        }
    } else if t[pos] == "End"@ {
        if pos + 7 < t.len() && t[pos + 1] == "Site"@ && t[pos + 2] == "{"@ && t[pos + 3]
            == "OFFSET"@ && is_float_text(t[pos + 4]) && is_float_text(t[pos + 5])
            && is_float_text(t[pos + 6]) && t[pos + 7] == "}"@ {
            joint_body_error(t, pos + 8, js, index)
        } else {
            "bvh: malformed End Site"@
        }
    } else if t[pos] == "}"@ {
        eof_message()
    } else {
        "bvh: unexpected token `"@ + t[pos] + "` in joint body"@
    }
}

/// The channels of a declared joint, in listed order.
pub open spec fn decl_channels(t: Seq<Seq<char>>, d: JointDecl) -> Seq<Channel> {
    match d.channels {
        Some((p, n)) => match channels_at(t, p, n) {
            Some(cs) => cs,
            None => Seq::empty(),
        },
        None => Seq::empty(),
    }
}

pub proof fn lemma_channels_at(t: Seq<Seq<char>>, p: int, n: nat)
    requires
        channels_at(t, p, n) is Some,
        n > 0,
    ensures
        0 <= p,
        p + n <= t.len(),
        channels_at(t, p, n).unwrap().len() == n,
    decreases n,
{
    assert(channels_at(t, p, 0) == Some(Seq::<Channel>::empty()));
    if n > 1 {
        lemma_channels_at(t, p, (n - 1) as nat);
    }
}

pub proof fn lemma_channels_none(t: Seq<Seq<char>>, p: int, m: nat, n: nat)
    requires
        channels_at(t, p, m) is None,
        m <= n,
    ensures
        channels_at(t, p, n) is None,
    decreases n - m,
{
    if m < n {
        lemma_channels_none(t, p, m, (n - 1) as nat);
    }
}

/// The number of channels a declared joint lists.
pub open spec fn channel_len(d: JointDecl) -> nat {
    match d.channels {
        Some((_, n)) => n,
        None => 0,
    }
}

/// The number of channels the joints `js` list, together: the samples per frame.
pub open spec fn channel_total(js: Seq<JointDecl>) -> nat
    decreases js.len(),
{
    if js.len() == 0 {
        0
    } else {
        channel_total(js.drop_last()) + channel_len(js.last())
    }
}

/// What the parse guarantees of every declared joint: its name and numbers are words of `t`,
/// its channel names are channel names, and its parent comes before it.
pub open spec fn decls_ok(t: Seq<Seq<char>>, js: Seq<JointDecl>) -> bool {
    forall|i: int|
        0 <= i < js.len() ==> {
            &&& 0 <= (#[trigger] js[i]).name < t.len()
            &&& (js[i].parent matches Some(q) ==> 0 <= q < i)
            &&& (js[i].parent is None <==> i == 0)
            &&& (js[i].offset matches Some(o) ==> 0 <= o && o + 2 < t.len() && is_float_text(t[o])
                && is_float_text(t[o + 1]) && is_float_text(t[o + 2]))
            &&& (js[i].channels matches Some((p, n)) ==> channels_at(t, p, n) is Some)
        }
}

pub proof fn lemma_total_update(js: Seq<JointDecl>, i: int, d: JointDecl)
    requires
        0 <= i < js.len(),
    ensures
        channel_total(js.update(i, d)) + channel_len(js[i]) == channel_total(js) + channel_len(d),
    decreases js.len(),
{
    let u = js.update(i, d);
    if i == js.len() - 1 {
        assert(u.drop_last() =~= js.drop_last());
    } else {
        lemma_total_update(js.drop_last(), i, d);
        assert(u.drop_last() =~= js.drop_last().update(i, d));
    }
}

/// A joint being parsed: the word positions of its parts.
#[derive(Clone, Copy)]
struct RawJoint {
    name: usize,
    parent: Option<usize>,
    offset: Option<usize>,
    channels: Option<(usize, usize)>,
}

spec fn opt_int(o: Option<usize>) -> Option<int> {
    match o {
        Some(v) => Some(v as int),
        None => None,
    }
}

impl RawJoint {
    spec fn decl(&self) -> JointDecl {
        JointDecl {
            name: self.name as int,
            parent: opt_int(self.parent),
            offset: opt_int(self.offset),
            channels: match self.channels {
                Some((p, n)) => Some((p as int, n as nat)),
                None => None,
            },
        }
    }
}

spec fn decls(js: Seq<RawJoint>) -> Seq<JointDecl> {
    js.map_values(|j: RawJoint| j.decl())
}

/// The words of `s`, with `w` holding their positions.
spec fn well_split(s: &[char], w: &[(usize, usize)]) -> bool {
    ranges_match(s@, w@, words(s@))
}

fn word_is(s: &[char], w: &[(usize, usize)], k: usize, kw: &str) -> (r: bool)
    requires
        well_split(s, w),
        k < w@.len(),
    ensures
        r == (words(s@)[k as int] == kw@),
{
    let (a, b) = w[k];
    range_is(s, a, b, kw)
}

fn token_error(head: &str, s: &[char], w: &[(usize, usize)], k: usize, tail: &str) -> (e: IoError)
    requires
        well_split(s, w),
        k < w@.len(),
    ensures
        e matches IoError::Parse(m) && m@ == head@ + words(s@)[k as int] + tail@,
{
    let mut m = String::new();
    push_str(&mut m, head);
    let tok = word_string(s, w, k);
    push_str(&mut m, tok.as_str());
    push_str(&mut m, tail);
    IoError::Parse(m)
}

fn expect_word(s: &[char], w: &[(usize, usize)], k: usize, kw: &str) -> (r: Result<(), IoError>)
    requires
        well_split(s, w),
    ensures
        r is Ok <==> (k < w@.len() && words(s@)[k as int] == kw@),
        r matches Err(e) ==> e matches IoError::Parse(m) && m@ == expect_message(words(s@), k as int, kw@),
{
    if k >= w.len() {
        return Err(parse_error("bvh: unexpected end of file"));
    }
    if word_is(s, w, k, kw) {
        Ok(())
    } else {
        let mut head = String::new();
        push_str(&mut head, "bvh: expected `");
        push_str(&mut head, kw);
        push_str(&mut head, "`, found `");
        let e = token_error(head.as_str(), s, w, k, "`");
        proof {
            assert(head@ =~= "bvh: expected `"@ + kw@ + "`, found `"@);
        }
        Err(e)
    }
}

fn float_word(s: &[char], w: &[(usize, usize)], k: usize) -> (r: bool)
    requires
        well_split(s, w),
        k < w@.len(),
    ensures
        r == is_float_text(words(s@)[k as int]),
{
    let (a, b) = w[k];
    is_float_range(s, a, b)
}

fn usize_word(s: &[char], w: &[(usize, usize)], k: usize) -> (r: Option<usize>)
    requires
        well_split(s, w),
        k < w@.len(),
    ensures
        r == usize_value(words(s@)[k as int]),
{
    let (a, b) = w[k];
    parse_usize(s, a, b)
}

fn channel_word(s: &[char], w: &[(usize, usize)], k: usize) -> (r: Option<Channel>)
    requires
        well_split(s, w),
        k < w@.len(),
    ensures
        r == channel_of(words(s@)[k as int]),
{
    if word_is(s, w, k, "Xposition") {
        Some(Channel::PosX)
    } else if word_is(s, w, k, "Yposition") {
        Some(Channel::PosY)
    } else if word_is(s, w, k, "Zposition") {
        Some(Channel::PosZ)
    } else if word_is(s, w, k, "Xrotation") {
        Some(Channel::RotX)
    } else if word_is(s, w, k, "Yrotation") {
        Some(Channel::RotY)
    } else if word_is(s, w, k, "Zrotation") {
        Some(Channel::RotZ)
    } else {
        None
    }
}

/// The first of the `n` channel words from `p` that names no channel, among those the text
/// holds.
fn first_bad_channel(s: &[char], w: &[(usize, usize)], p: usize, n: usize) -> (r: Option<usize>)
    requires
        well_split(s, w),
        p <= w@.len(),
    ensures
        r matches Some(i) ==> p <= i < w@.len() && channels_at(words(s@), p as int, n as nat) is None,
        r is None ==> (p + n <= w@.len() <==> channels_at(words(s@), p as int, n as nat) is Some),
        opt_int(r) == bad_channel_from(words(s@), p as int, 0, n as int),
{
    let mut k: usize = 0;
    while k < n && k < w.len() - p
        invariant
            well_split(s, w),
            p <= w@.len(),
            k <= n,
            p + k <= w@.len(),
            channels_at(words(s@), p as int, k as nat) is Some,
            bad_channel_from(words(s@), p as int, 0, n as int) == bad_channel_from(words(s@), p as int, k as int, n as int),
        decreases n - k,
    {
        if channel_word(s, w, p + k).is_none() {
            proof {
                lemma_channels_none(words(s@), p as int, (k + 1) as nat, n as nat);
            }
            return Some(p + k);
        }
        k = k + 1;
    }
    proof {
        if k < n {
            assert(channels_at(words(s@), p as int, (k + 1) as nat) is None);
            lemma_channels_none(words(s@), p as int, (k + 1) as nat, n as nat);
        }
    }
    None
}

fn parse_joint(
    s: &[char],
    w: &[(usize, usize)],
    pos: usize,
    joints: &mut Vec<RawJoint>,
    parent: Option<usize>,
    name: usize,
) -> (r: Result<usize, IoError>)
    requires
        well_split(s, w),
        pos <= w@.len(),
        old(joints)@.len() + 2 <= pos,
        decls_ok(words(s@), decls(old(joints)@)),
        channel_total(decls(old(joints)@)) + 2 <= pos,
        name + 1 == pos,
        parent matches Some(q) ==> q < old(joints)@.len(),
        parent is None <==> old(joints)@.len() == 0,
    ensures
        match joint_decl(words(s@), pos as int, decls(old(joints)@), opt_int(parent), name as int) {
            Some((p, js)) => p <= w@.len() && r == Ok::<usize, IoError>(p as usize) && decls(final(joints)@) == js
                && final(joints)@.len() <= p && channel_total(js) <= p,
            None => r matches Err(IoError::Parse(m)) && m@ == joint_decl_error(
                words(s@),
                pos as int,
                decls(old(joints)@),
                opt_int(parent),
                name as int,
            ),
        },
        final(joints)@.len() > old(joints)@.len(),
        decls_ok(words(s@), decls(final(joints)@)),
    decreases w@.len() - pos, 1int,
{
    let index = joints.len();
    let ghost js0 = decls(joints@);
    joints.push(RawJoint { name, parent, offset: None, channels: None });
    proof {
        let d = JointDecl { name: name as int, parent: opt_int(parent), offset: None, channels: None };
        assert(decls(joints@) =~= js0.push(d));
        assert(js0.push(d).drop_last() =~= js0);
        assert(decls(joints@)[index as int] == d);
        assert(decls_ok(words(s@), decls(joints@))) by {
            assert forall|i: int| 0 <= i < js0.len() implies decls(joints@)[i] == js0[i] by {}
        }
    }
    if pos < w.len() && word_is(s, w, pos, "{") {
        parse_body(s, w, pos + 1, joints, index)
    } else {
        match expect_word(s, w, pos, "{") {
            Err(e) => Err(e),
            Ok(_) => Err(parse_error("bvh: unexpected end of file")),
        }
    }
}

fn parse_body(
    s: &[char],
    w: &[(usize, usize)],
    pos: usize,
    joints: &mut Vec<RawJoint>,
    index: usize,
) -> (r: Result<usize, IoError>)
    requires
        well_split(s, w),
        pos <= w@.len(),
        index < old(joints)@.len() <= pos,
        decls_ok(words(s@), decls(old(joints)@)),
        channel_total(decls(old(joints)@)) <= pos,
    ensures
        match joint_body(words(s@), pos as int, decls(old(joints)@), index as int) {
            Some((p, js)) => p <= w@.len() && r == Ok::<usize, IoError>(p as usize) && decls(final(joints)@) == js
                && final(joints)@.len() <= p && channel_total(js) <= p,
            None => r matches Err(IoError::Parse(m)) && m@ == joint_body_error(
                words(s@),
                pos as int,
                decls(old(joints)@),
                index as int,
            ),
        },
        final(joints)@.len() >= old(joints)@.len(),
        decls_ok(words(s@), decls(final(joints)@)),
    decreases w@.len() - pos, 0int,
{
    let ghost t = words(s@);
    let ghost js0 = decls(joints@);
    if pos >= w.len() {
        return Err(parse_error("bvh: unexpected end of file"));
    }
    if word_is(s, w, pos, "OFFSET") {
        if w.len() - pos > 3 && float_word(s, w, pos + 1) && float_word(s, w, pos + 2)
            && float_word(s, w, pos + 3) {
            let j = joints[index];
            joints.set(index, RawJoint { offset: Some(pos + 1), ..j });
            proof {
                let d = JointDecl { offset: Some(pos + 1), ..js0[index as int] };
                assert(decls(joints@) =~= js0.update(index as int, d));
                lemma_total_update(js0, index as int, d);
            }
            parse_body(s, w, pos + 4, joints, index)
        } else {
            Err(parse_error("bvh: expected three numbers after OFFSET"))
        }
    } else if word_is(s, w, pos, "CHANNELS") {
        if pos + 1 >= w.len() {
            return Err(parse_error("bvh: unexpected end of file"));
        }
        let n = match usize_word(s, w, pos + 1) {
            Some(n) => n,
            None => {
                return Err(parse_error("bvh: bad CHANNELS count"));
            },
        };
        match first_bad_channel(s, w, pos + 2, n) {
            Some(k) => {
                return Err(token_error("bvh: unknown channel `", s, w, k, "`"));
            },
            None => {},
        }
        if n > w.len() - (pos + 2) {
            proof {
                if channels_at(t, pos + 2, n as nat) is Some {
                    lemma_channels_at(t, pos + 2, n as nat);
                }
            }
            return Err(parse_error("bvh: unexpected end of file"));
        }
        let j = joints[index];
        joints.set(index, RawJoint { channels: Some((pos + 2, n)), ..j });
        proof {
            let d = JointDecl { channels: Some((pos + 2, n as nat)), ..js0[index as int] };
            assert(decls(joints@) =~= js0.update(index as int, d));
            lemma_total_update(js0, index as int, d);
        }
        parse_body(s, w, pos + 2 + n, joints, index)
    } else if word_is(s, w, pos, "JOINT") {
        if pos + 1 >= w.len() {
            return Err(parse_error("bvh: unexpected end of file"));
        }
        let p2 = match parse_joint(s, w, pos + 2, joints, Some(index), pos + 1) {
            Ok(p2) => p2,
            Err(e) => {
                return Err(e);
            },
        };
        if pos < p2 && p2 <= w.len() {
            parse_body(s, w, p2, joints, index)
        } else {
            Err(parse_error("bvh: malformed joint"))
        }
    } else if word_is(s, w, pos, "End") {
        if w.len() - pos > 7 && word_is(s, w, pos + 1, "Site") && word_is(s, w, pos + 2, "{")
            && word_is(s, w, pos + 3, "OFFSET") && float_word(s, w, pos + 4) && float_word(
            s,
            w,
            pos + 5,
        ) && float_word(s, w, pos + 6) && word_is(s, w, pos + 7, "}") {
            parse_body(s, w, pos + 8, joints, index)
        } else {
            Err(parse_error("bvh: malformed End Site"))
        }
    } else if word_is(s, w, pos, "}") {
        Ok(pos + 1)
    } else {
        Err(token_error("bvh: unexpected token `", s, w, pos, "` in joint body"))
    }
}


/// The structure a well-formed BVH text declares.
pub struct BvhDoc {
    /// The joints, in declaration (pre-)order.
    pub joints: Seq<JointDecl>,
    /// The frame count.
    pub frames: nat,
    /// Position of the frame-time word.
    pub frame_time: int,
    /// Position of the first motion sample word.
    pub first_sample: int,
}

/// The most joints a skeleton may have.
pub open spec fn max_joints() -> nat {
    256
}

/// What a BVH text with words `t` declares, or `None` where decoding fails: a bad or missing
/// keyword, an unknown channel, a bad number, more than 256 joints, or fewer motion samples
/// than the frames and channels call for.
pub open spec fn bvh_doc(t: Seq<Seq<char>>) -> Option<BvhDoc> {
    if t.len() >= 3 && t[0] == "HIERARCHY"@ && t[1] == "ROOT"@ {
        match joint_decl(t, 3, Seq::empty(), None, 2) {
            Some((p, js)) => {
                if js.len() <= max_joints() && 0 <= p && p + 5 < t.len() && t[p] == "MOTION"@ && t[p
                    + 1] == "Frames:"@ && usize_value(t[p + 2]) is Some && t[p + 3] == "Frame"@ && t[p
                    + 4] == "Time:"@ && is_float_text(t[p + 5]) && (forall|k: int|
                    p + 6 <= k < t.len() ==> is_float_text(#[trigger] t[k])) {
                    let frames = usize_value(t[p + 2]).unwrap() as nat;
                    let per_frame = channel_total(js);
                    if per_frame != 0 && t.len() - (p + 6) < frames * per_frame {
                        None
                    } else {
                        Some(BvhDoc { joints: js, frames, frame_time: p + 5, first_sample: p + 6 })
                    }
                } else {
                    None
                }
            },
            None => None,
        }
    } else {
        None
    }
}

/// The error of a motion section of `samples` numbers that is too short for `frames` frames of
/// `per_frame` samples.
pub open spec fn short_motion_message(samples: nat, frames: nat, per_frame: nat) -> Seq<char> {
    if frames * per_frame <= usize::MAX {
        "bvh: motion has "@ + decimal(samples) + " samples, expected "@ + decimal(frames * per_frame) + " ("@
            + decimal(frames) + " frames x "@ + decimal(per_frame) + " channels)"@
    } else {
        "bvh: motion has fewer samples than its frames call for"@
    }
}

/// The error of the motion section of a text whose hierarchy declares `js` and ends just
/// before `t[p]`: the first part that does not read.
pub open spec fn motion_error(t: Seq<Seq<char>>, p: int, js: Seq<JointDecl>) -> Seq<char> {
    if !(0 <= p < t.len() && t[p] == "MOTION"@) {
        expect_message(t, p, "MOTION"@)
    } else if !(p + 1 < t.len() && t[p + 1] == "Frames:"@) {
        expect_message(t, p + 1, "Frames:"@)
    } else if p + 2 >= t.len() {
        eof_message()
    } else {
        match usize_value(t[p + 2]) {
            None => "bvh: bad Frames count"@,
            Some(frames) => if !(p + 3 < t.len() && t[p + 3] == "Frame"@) {
                expect_message(t, p + 3, "Frame"@)
            } else if !(p + 4 < t.len() && t[p + 4] == "Time:"@) {
                expect_message(t, p + 4, "Time:"@)
            } else if p + 5 >= t.len() {
                eof_message()
            } else if !is_float_text(t[p + 5]) {
                "bvh: bad Frame Time"@
            } else {
                match bad_sample_from(t, p + 6) {
                    Some(k) => "bvh: non-numeric motion sample `"@ + t[k] + "`"@,
                    None => short_motion_message((t.len() - (p + 6)) as nat, frames as nat, channel_total(js)),
                }
            },
        }
    }
}

/// The error of a BVH text with words `t` that does not decode (see [`bvh_doc`]): the first
/// part that does not read, in text order, the joint limit checked once the hierarchy reads.
pub open spec fn bvh_error(t: Seq<Seq<char>>) -> Seq<char> {
    if !(t.len() > 0 && t[0] == "HIERARCHY"@) {
        expect_message(t, 0, "HIERARCHY"@)
    } else if !(t.len() > 1 && t[1] == "ROOT"@) {
        expect_message(t, 1, "ROOT"@)
    } else if t.len() < 3 {
        eof_message()
    } else {
        match joint_decl(t, 3, Seq::empty(), None, 2) {
            None => joint_decl_error(t, 3, Seq::empty(), None, 2),
            Some((p, js)) => if js.len() > max_joints() {
                joint_limit_message(js.len())
            } else {
                motion_error(t, p, js)
            },
        }
    }
}

/// The joints a BVH text's hierarchy declares, when the hierarchy reads.
pub open spec fn hierarchy_joints(t: Seq<Seq<char>>) -> Option<Seq<JointDecl>> {
    if t.len() >= 3 && t[0] == "HIERARCHY"@ && t[1] == "ROOT"@ {
        match joint_decl(t, 3, Seq::empty(), None, 2) {
            Some((p, js)) => Some(js),
            None => None,
        }
    } else {
        None
    }
}

/// The error of a hierarchy with more joints than a skeleton may have.
pub open spec fn joint_limit_message(n: nat) -> Seq<char> {
    "bvh: "@ + decimal(n) + " joints exceeds the 256-joint limit"@
}

/// Whether a declared joint has a rotation channel.
pub open spec fn has_rotation(t: Seq<Seq<char>>, d: JointDecl) -> bool {
    exists|k: int| 0 <= k < decl_channels(t, d).len() && is_rotation(#[trigger] decl_channels(t, d)[k])
}

/// Whether a declared joint has a translation channel.
pub open spec fn has_translation(t: Seq<Seq<char>>, d: JointDecl) -> bool {
    exists|k: int|
        0 <= k < decl_channels(t, d).len() && !is_rotation(#[trigger] decl_channels(t, d)[k])
}

/// Which part of a joint's transform an animation track drives.
#[derive(Clone, Copy, Debug, PartialEq, Eq, Structural)]
pub enum AnimationChannel {
    /// The joint's translation.
    Translation,
    /// The joint's rotation.
    Rotation,
}

/// The tracks of the first `n` joints: per joint a rotation track if it has a rotation
/// channel, then a translation track if it has a translation channel; none at all when the
/// clip has no frames.
pub open spec fn tracks_of(t: Seq<Seq<char>>, js: Seq<JointDecl>, frames: nat, n: int) -> Seq<
    (int, AnimationChannel),
>
    decreases n,
{
    if n <= 0 || frames == 0 {
        Seq::empty()
    } else {
        let before = tracks_of(t, js, frames, n - 1);
        let with_rot = if has_rotation(t, js[n - 1]) {
            before.push((n - 1, AnimationChannel::Rotation))
        } else {
            before
        };
        if has_translation(t, js[n - 1]) {
            with_rot.push((n - 1, AnimationChannel::Translation))
        } else {
            with_rot
        }
    }
}

/// One joint of a skeleton.
pub struct Joint {
    /// The joint's name.
    pub name: String,
    /// Index of the parent joint, which precedes this one.
    pub parent: Option<u8>,
}

/// A joint hierarchy.
pub struct Skeleton {
    /// The skeleton's name: the name of its root joint.
    pub name: String,
    /// The joints, parents before children.
    pub joints: Vec<Joint>,
}

/// One animated component of one joint.
pub struct AnimationTrack {
    /// Index of the joint the track drives.
    pub joint: usize,
    /// Which part of the joint's transform it drives.
    pub channel: AnimationChannel,
    /// How values between frames are interpolated.
    pub interpolation: Interpolation,
}

/// A clip of evenly spaced frames.
pub struct AnimationClip {
    /// The clip's name.
    pub name: String,
    /// Index of the skeleton the clip drives.
    pub skeleton_index: usize,
    /// The number of frames.
    pub frame_count: usize,
    /// The time between frames, as written.
    pub frame_time: String,
    /// The animated tracks.
    pub tracks: Vec<AnimationTrack>,
}

/// How one joint reads its local transform from a frame of samples.
pub struct JointMotion {
    /// The three `OFFSET` numbers as written; empty when the joint has none (a zero offset).
    pub offset: Vec<String>,
    /// The joint's channels, in listed order; rotations compose in this order.
    pub channels: Vec<Channel>,
    /// Index, within a frame's row of samples, of the joint's first channel.
    pub first_channel: usize,
}

/// A decoded BVH file: one skeleton, one clip, and the motion samples the clip reads.
pub struct BvhScene {
    /// The skeleton (exactly one).
    pub skeletons: Vec<Skeleton>,
    /// The clip (exactly one).
    pub animations: Vec<AnimationClip>,
    /// Per joint of the skeleton, how it reads the samples.
    pub motion: Vec<JointMotion>,
    /// The number of samples in one frame's row.
    pub samples_per_frame: usize,
    /// Every motion sample as written, row after row.
    pub samples: Vec<String>,
}

/// `js[i]`'s parent as the skeleton stores it.
pub open spec fn parent_u8(d: JointDecl) -> Option<u8> {
    match d.parent {
        Some(q) => Some(q as u8),
        None => None,
    }
}

/// The scene `r` is the one document `doc` of the text with words `t` decodes to.
pub open spec fn scene_of(r: BvhScene, t: Seq<Seq<char>>, doc: BvhDoc) -> bool {
    let js = doc.joints;
    &&& r.skeletons@.len() == 1
    &&& r.animations@.len() == 1
    &&& r.skeletons@[0].name@ == t[js[0].name]
    &&& r.skeletons@[0].joints@.len() == js.len()
    &&& forall|i: int|
        0 <= i < js.len() ==> {
            &&& (#[trigger] r.skeletons@[0].joints@[i]).name@ == t[js[i].name]
            &&& r.skeletons@[0].joints@[i].parent == parent_u8(js[i])
        }
    &&& r.animations@[0].name@ == "bvh"@
    &&& r.animations@[0].skeleton_index == 0
    &&& r.animations@[0].frame_count == doc.frames
    &&& r.animations@[0].frame_time@ == t[doc.frame_time]
    &&& r.animations@[0].tracks@.map_values(|a: AnimationTrack| (a.joint as int, a.channel))
        == tracks_of(t, js, doc.frames, js.len() as int)
    &&& forall|k: int|
        0 <= k < r.animations@[0].tracks@.len() ==> (#[trigger] r.animations@[0].tracks@[k]).interpolation
            == Interpolation::Linear
    &&& r.motion@.len() == js.len()
    &&& forall|i: int|
        0 <= i < js.len() ==> {
            &&& (#[trigger] r.motion@[i]).channels@ == decl_channels(t, js[i])
            &&& r.motion@[i].first_channel == channel_total(js.subrange(0, i))
            &&& match js[i].offset {
                Some(o) => r.motion@[i].offset.deep_view() == t.subrange(o, o + 3),
                None => r.motion@[i].offset@.len() == 0,
            }
        }
    &&& r.samples_per_frame == channel_total(js)
    &&& r.samples.deep_view() == t.subrange(doc.first_sample, t.len() as int)
}


proof fn lemma_total_prefix(js: Seq<JointDecl>, i: int)
    requires
        0 <= i < js.len(),
    ensures
        channel_total(js.subrange(0, i + 1)) == channel_total(js.subrange(0, i)) + channel_len(js[i]),
{
    assert(js.subrange(0, i + 1).drop_last() =~= js.subrange(0, i));
}

proof fn lemma_total_monotone(js: Seq<JointDecl>, i: int)
    requires
        0 <= i <= js.len(),
    ensures
        channel_total(js.subrange(0, i)) <= channel_total(js),
    decreases js.len() - i,
{
    if i < js.len() {
        lemma_total_prefix(js, i);
        lemma_total_monotone(js, i + 1);
    } else {
        assert(js.subrange(0, i) =~= js);
    }
}

proof fn lemma_channels_prefix(t: Seq<Seq<char>>, p: int, k: nat, n: nat)
    requires
        channels_at(t, p, n) is Some,
        k <= n,
    ensures
        channels_at(t, p, k) is Some,
{
    if channels_at(t, p, k) is None {
        lemma_channels_none(t, p, k, n);
    }
}

fn word_string(s: &[char], w: &[(usize, usize)], k: usize) -> (r: String)
    requires
        well_split(s, w),
        k < w@.len(),
    ensures
        r@ == words(s@)[k as int],
{
    let (a, b) = w[k];
    string_of(s, a, b)
}

fn channel_list(s: &[char], w: &[(usize, usize)], p: usize, n: usize) -> (r: Vec<Channel>)
    requires
        well_split(s, w),
        channels_at(words(s@), p as int, n as nat) is Some,
    ensures
        Some(r@) == channels_at(words(s@), p as int, n as nat),
{
    let ghost t = words(s@);
    if n > 0 {
        proof {
            lemma_channels_at(t, p as int, n as nat);
        }
    }
    let mut v: Vec<Channel> = Vec::new();
    let mut k: usize = 0;
    while k < n
        invariant
            well_split(s, w),
            t == words(s@),
            channels_at(t, p as int, n as nat) is Some,
            n > 0 ==> p + n <= t.len(),
            k <= n,
            Some(v@) == channels_at(t, p as int, k as nat),
        decreases n - k,
    {
        proof {
            lemma_channels_prefix(t, p as int, (k + 1) as nat, n as nat);
        }
        assert(p + k < w.len());
        let c = channel_word(s, w, p + k);
        match c {
            Some(c) => {
                v.push(c);
            },
            None => {},
        }
        k = k + 1;
    }
    v
}

fn has_rotation_channel(cs: &Vec<Channel>) -> (r: (bool, bool))
    ensures
        r.0 == (exists|k: int| 0 <= k < cs@.len() && is_rotation(#[trigger] cs@[k])),
        r.1 == (exists|k: int| 0 <= k < cs@.len() && !is_rotation(#[trigger] cs@[k])),
{
    let mut rot = false;
    let mut pos = false;
    let mut k: usize = 0;
    while k < cs.len()
        invariant
            k <= cs@.len(),
            rot == (exists|j: int| 0 <= j < k && is_rotation(#[trigger] cs@[j])),
            pos == (exists|j: int| 0 <= j < k && !is_rotation(#[trigger] cs@[j])),
        decreases cs@.len() - k,
    {
        let c = cs[k];
        let is_rot = match c {
            Channel::RotX | Channel::RotY | Channel::RotZ => true,
            _ => false,
        };
        if is_rot {
            rot = true;
        } else {
            pos = true;
        }
        k = k + 1;
    }
    (rot, pos)
}

fn short_motion(samples: usize, frames: usize, per_frame: usize) -> (e: IoError)
    ensures
        e matches IoError::Parse(m) && m@ == short_motion_message(samples as nat, frames as nat, per_frame as nat),
{
    match frames.checked_mul(per_frame) {
        Some(expected) => {
            let mut m = String::new();
            push_str(&mut m, "bvh: motion has ");
            push_str(&mut m, decimal_string(samples).as_str());
            push_str(&mut m, " samples, expected ");
            push_str(&mut m, decimal_string(expected).as_str());
            push_str(&mut m, " (");
            push_str(&mut m, decimal_string(frames).as_str());
            push_str(&mut m, " frames x ");
            push_str(&mut m, decimal_string(per_frame).as_str());
            push_str(&mut m, " channels)");
            IoError::Parse(m)
        },
        None => parse_error("bvh: motion has fewer samples than its frames call for"),
    }
}

fn first_bad_sample(s: &[char], w: &[(usize, usize)], start: usize) -> (r: Option<usize>)
    requires
        well_split(s, w),
        start <= w@.len(),
    ensures
        r is None <==> forall|j: int| start <= j < w@.len() ==> is_float_text(#[trigger] words(s@)[j]),
        r matches Some(k) ==> start <= k < w@.len(),
        opt_int(r) == bad_sample_from(words(s@), start as int),
{
    let mut k = start;
    while k < w.len()
        invariant
            well_split(s, w),
            start <= k <= w@.len(),
            forall|j: int| start <= j < k ==> is_float_text(#[trigger] words(s@)[j]),
            bad_sample_from(words(s@), start as int) == bad_sample_from(words(s@), k as int),
        decreases w@.len() - k,
    {
        if !float_word(s, w, k) {
            return Some(k);
        }
        k = k + 1;
    }
    None
}

proof fn lemma_frames_fit(remaining: nat, per_frame: nat, frames: nat)
    requires
        per_frame > 0,
    ensures
        (remaining < frames * per_frame) == (remaining / per_frame < frames),
{
    assert((remaining < frames * per_frame) == (remaining / per_frame < frames)) by (nonlinear_arith)
        requires
            per_frame > 0,
    ;
}

/// A skeleton of one to 256 joints whose first joint is the only root and whose every other
/// joint names an earlier joint as its parent.
pub open spec fn skeleton_laws(sk: Skeleton) -> bool {
    &&& 1 <= sk.joints@.len() <= 256
    &&& forall|i: int|
        0 <= i < sk.joints@.len() ==> {
            &&& ((#[trigger] sk.joints@[i]).parent is None <==> i == 0)
            &&& (sk.joints@[i].parent matches Some(q) ==> q < i)
        }
}

/// Every frame of the clip has a full row of samples.
pub open spec fn full_rows(sc: BvhScene) -> bool {
    sc.animations@.len() == 1 && sc.samples_per_frame * sc.animations@[0].frame_count
        <= sc.samples@.len()
}

/// Decodes BVH from a UTF-8 string: the scene of [`bvh_doc`], or the parse error of
/// [`bvh_error`].
pub fn scene_from_str(text: &str) -> (r: Result<BvhScene, IoError>)
    ensures
        match bvh_doc(words(text@)) {
            Some(doc) => r matches Ok(sc) && scene_of(sc, words(text@), doc),
            None => r matches Err(IoError::Parse(m)) && m@ == bvh_error(words(text@)),
        },
        r matches Ok(sc) ==> skeleton_laws(sc.skeletons@[0]) && full_rows(sc),
        match hierarchy_joints(words(text@)) {
            Some(js) => js.len() > max_joints() ==> (r matches Err(IoError::Parse(m)) && m@ == joint_limit_message(
                js.len(),
            )),
            None => true,
        },
{
    let s = chars_of(text);
    let w = word_ranges(s.as_slice());
    let ghost t = words(s@);
    assert(t == words(text@));
    let s = s.as_slice();
    let w = w.as_slice();
    match expect_word(s, w, 0, "HIERARCHY") {
        Ok(_) => {},
        Err(e) => {
            return Err(e);
        },
    }
    match expect_word(s, w, 1, "ROOT") {
        Ok(_) => {},
        Err(e) => {
            return Err(e);
        },
    }
    if w.len() < 3 {
        return Err(parse_error("bvh: unexpected end of file"));
    }
    let mut raw: Vec<RawJoint> = Vec::new();
    proof {
        assert(decls(raw@) =~= Seq::<JointDecl>::empty());
    }
    let p = match parse_joint(s, w, 3, &mut raw, None, 2) {
        Ok(p) => p,
        Err(e) => {
            return Err(e);
        },
    };
    let ghost js = decls(raw@);
    if raw.len() > 256 {
        let mut m = String::new();
        push_str(&mut m, "bvh: ");
        let d = decimal_string(raw.len());
        push_str(&mut m, d.as_str());
        push_str(&mut m, " joints exceeds the 256-joint limit");
        assert(m@ =~= joint_limit_message(js.len()));
        return Err(IoError::Parse(m));
    }
    match expect_word(s, w, p, "MOTION") {
        Ok(_) => {},
        Err(e) => {
            return Err(e);
        },
    }
    match expect_word(s, w, p + 1, "Frames:") {
        Ok(_) => {},
        Err(e) => {
            return Err(e);
        },
    }
    if p + 2 >= w.len() {
        return Err(parse_error("bvh: unexpected end of file"));
    }
    let frames = match usize_word(s, w, p + 2) {
        Some(f) => f,
        None => {
            return Err(parse_error("bvh: bad Frames count"));
        },
    };
    match expect_word(s, w, p + 3, "Frame") {
        Ok(_) => {},
        Err(e) => {
            return Err(e);
        },
    }
    match expect_word(s, w, p + 4, "Time:") {
        Ok(_) => {},
        Err(e) => {
            return Err(e);
        },
    }
    if p + 5 >= w.len() {
        return Err(parse_error("bvh: unexpected end of file"));
    }
    if !float_word(s, w, p + 5) {
        return Err(parse_error("bvh: bad Frame Time"));
    }
    match first_bad_sample(s, w, p + 6) {
        Some(k) => {
            return Err(token_error("bvh: non-numeric motion sample `", s, w, k, "`"));
        },
        None => {},
    }
    // Per joint: its channels, where they start in a frame's row, and the tracks it drives.

    let mut motion: Vec<JointMotion> = Vec::new();
    let mut joints: Vec<Joint> = Vec::new();
    let mut tracks: Vec<AnimationTrack> = Vec::new();
    let mut total: usize = 0;
    let mut i: usize = 0;
    while i < raw.len()
        invariant
            well_split(s, w),
            t == words(s@),
            js == decls(raw@),
            decls_ok(t, js),
            channel_total(js) <= p,
            p <= w@.len(),
            raw@.len() <= 256,
            i <= raw@.len(),
            total == channel_total(js.subrange(0, i as int)),
            joints@.len() == i,
            motion@.len() == i,
            forall|j: int|
                0 <= j < i ==> {
                    &&& (#[trigger] joints@[j]).name@ == t[js[j].name]
                    &&& joints@[j].parent == parent_u8(js[j])
                },
            forall|j: int|
                0 <= j < i ==> {
                    &&& (#[trigger] motion@[j]).channels@ == decl_channels(t, js[j])
                    &&& motion@[j].first_channel == channel_total(js.subrange(0, j))
                    &&& match js[j].offset {
                        Some(o) => motion@[j].offset.deep_view() == t.subrange(o, o + 3),
                        None => motion@[j].offset@.len() == 0,
                    }
                },
            tracks@.map_values(|a: AnimationTrack| (a.joint as int, a.channel)) == tracks_of(
                t,
                js,
                frames as nat,
                i as int,
            ),
            forall|k: int| 0 <= k < tracks@.len() ==> (#[trigger] tracks@[k]).interpolation == Interpolation::Linear,
        decreases raw@.len() - i,
    {
        let rj = raw[i];
        assert(js[i as int] == rj.decl());
        let name = word_string(s, w, rj.name);
        let parent = match rj.parent {
            Some(q) => Some(q as u8),
            None => None,
        };
        joints.push(Joint { name, parent });
        let channels = match rj.channels {
            Some((cp, cn)) => channel_list(s, w, cp, cn),
            None => Vec::new(),
        };
        assert(channels@ == decl_channels(t, js[i as int]));
        let mut offset: Vec<String> = Vec::new();
        match rj.offset {
            Some(o) => {
                assert(o + 2 < w.len());
                offset.push(word_string(s, w, o));
                offset.push(word_string(s, w, o + 1));
                offset.push(word_string(s, w, o + 2));
                assert(offset.deep_view() =~= t.subrange(o as int, o + 3));
            },
            None => {},
        }
        let (rot, pos) = has_rotation_channel(&channels);
        let ghost before = tracks@.map_values(|a: AnimationTrack| (a.joint as int, a.channel));
        if frames > 0 && rot {
            tracks.push(AnimationTrack { joint: i, channel: AnimationChannel::Rotation, interpolation: Interpolation::Linear });
        }
        if frames > 0 && pos {
            tracks.push(AnimationTrack { joint: i, channel: AnimationChannel::Translation, interpolation: Interpolation::Linear });
        }
        proof {
            let after = tracks@.map_values(|a: AnimationTrack| (a.joint as int, a.channel));
            let with_rot = if has_rotation(t, js[i as int]) {
                before.push((i as int, AnimationChannel::Rotation))
            } else {
                before
            };
            let spec_after = if has_translation(t, js[i as int]) {
                with_rot.push((i as int, AnimationChannel::Translation))
            } else {
                with_rot
            };
            if frames > 0 {
                assert(tracks_of(t, js, frames as nat, i + 1) == spec_after);
                assert(after =~= spec_after);
            } else {
                assert(after =~= before);
            }
            lemma_total_prefix(js, i as int);
            lemma_total_monotone(js, i + 1);
        }
        let len = match rj.channels {
            Some((_, cn)) => cn,
            None => 0,
        };
        motion.push(JointMotion { offset, channels, first_channel: total });
        total = total + len;
        i = i + 1;
    }
    proof {
        assert(js.subrange(0, js.len() as int) =~= js);
    }
    let remaining = w.len() - (p + 6);
    if total != 0 {
        proof {
            lemma_frames_fit(remaining as nat, total as nat, frames as nat);
        }
        if remaining / total < frames {
            return Err(short_motion(remaining, frames, total));
        }
    }
    let mut samples: Vec<String> = Vec::new();
    let mut k = p + 6;
    while k < w.len()
        invariant
            well_split(s, w),
            t == words(s@),
            p + 6 <= k <= w@.len(),
            samples.deep_view() == t.subrange(p + 6, k as int),
        decreases w@.len() - k,
    {
        let ghost before = samples.deep_view();
        samples.push(word_string(s, w, k));
        assert(samples.deep_view() =~= before.push(t[k as int]));
        assert(t.subrange(p + 6, k + 1) =~= t.subrange(p + 6, k as int).push(t[k as int]));
        k = k + 1;
    }
    assert(js[0].name < w.len());
    let skeleton_name = word_string(s, w, raw[0].name);
    let clip = AnimationClip {
        name: "bvh".to_owned(),
        skeleton_index: 0,
        frame_count: frames,
        frame_time: word_string(s, w, p + 5),
        tracks,
    };
    let mut skeletons: Vec<Skeleton> = Vec::new();
    skeletons.push(Skeleton { name: skeleton_name, joints });
    let mut animations: Vec<AnimationClip> = Vec::new();
    animations.push(clip);
    let r = BvhScene { skeletons, animations, motion, samples_per_frame: total, samples };
    proof {
        assert(r.samples@.len() == r.samples.deep_view().len());
        if total != 0 {
            assert(total * frames <= remaining) by (nonlinear_arith)
                requires
                    total > 0,
                    remaining / total >= frames,
            ;
        }
        let sk = r.skeletons@[0];
        assert forall|i: int| 0 <= i < sk.joints@.len() implies {
            &&& ((#[trigger] sk.joints@[i]).parent is None <==> i == 0)
            &&& (sk.joints@[i].parent matches Some(q) ==> q < i)
        } by {
            assert(js[i].parent is None <==> i == 0);
        }
    }
    Ok(r)
}


/// Decodes BVH from an in-memory byte buffer holding UTF-8 text: for valid UTF-8, what
/// [`scene_from_str`] gives for the text; else a parse error that starts `bvh: not valid UTF-8: `.
pub fn scene_from_bytes(bytes: &[u8]) -> (r: Result<BvhScene, IoError>)
    ensures
        !valid_utf8(bytes@) ==> (r matches Err(IoError::Parse(m)) && starts(m@, "bvh: not valid UTF-8: "@)),
        valid_utf8(bytes@) ==> match bvh_doc(words(decode_utf8(bytes@))) {
            Some(doc) => r matches Ok(sc) && scene_of(sc, words(decode_utf8(bytes@)), doc),
            None => r matches Err(IoError::Parse(m)) && m@ == bvh_error(words(decode_utf8(bytes@))),
        },
        r matches Ok(sc) ==> skeleton_laws(sc.skeletons@[0]) && full_rows(sc),
        valid_utf8(bytes@) ==> match hierarchy_joints(words(decode_utf8(bytes@))) {
            Some(js) => js.len() > max_joints() ==> (r matches Err(IoError::Parse(m)) && m@ == joint_limit_message(
                js.len(),
            )),
            None => true,
        },
{
    match str_from_utf8(bytes) {
        Ok(text) => scene_from_str(text),
        Err(detail) => {
            let mut m = String::new();
            push_str(&mut m, "bvh: not valid UTF-8: ");
            push_str(&mut m, detail.as_str());
            proof {
                reveal_strlit("bvh: not valid UTF-8: ");
                assert(m@.subrange(0, "bvh: not valid UTF-8: "@.len() as int) =~= "bvh: not valid UTF-8: "@);
            }
            Err(IoError::Parse(m))
        },
    }
}

} // verus!
