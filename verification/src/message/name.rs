use vstd::prelude::*;
use vstd::slice::slice_subrange;
use vstd::string::StringExecFns;
use vstd::utf8::{decode_utf8, encode_utf8, valid_utf8};

use super::error::{MessageError, Progress};

verus! {

/// The byte that separates labels in the text form of a name.
pub const DOT: u8 = 0x2E;

/// Length bytes from this value up mark a compression pointer (RFC 1035
/// 4.1.4); the other fourteen bits of the two pointer bytes give the offset.
pub const POINTER_TAG: u8 = 0xC0;

// ---------------------------------------------------------------------------
// Text of a decoded name
// ---------------------------------------------------------------------------

/// The text that `String::from_utf8_lossy` makes of `bytes`.
pub uninterp spec fn utf8_lossy(bytes: Seq<u8>) -> Seq<char>;

/// The parts joined by single dots.
pub open spec fn join_dotted(parts: Seq<Seq<char>>) -> Seq<char>
    decreases parts.len(),
{
    if parts.len() == 0 {
        seq![]
    } else if parts.len() == 1 {
        parts[0]
    } else {
        parts[0] + seq!['.'] + join_dotted(parts.drop_first())
    }
}

/// The text of one label: its bytes read as UTF-8 when they are well-formed,
/// else what the lossy reading makes of them.
pub open spec fn label_chars(label: Seq<u8>) -> Seq<char> {
    if valid_utf8(label) {
        decode_utf8(label)
    } else {
        utf8_lossy(label)
    }
}

/// The text of a name made of the given labels: each label read as UTF-8,
/// with any ill-formed sequence replaced, and the labels joined by dots.
pub open spec fn name_text(labels: Seq<Seq<u8>>) -> Seq<char> {
    join_dotted(labels.map_values(|l: Seq<u8>| label_chars(l)))
}

/// `String::from_utf8_lossy(label).to_string()`.
/// Claimed: well-formed UTF-8 comes back as the text it encodes (as the
/// documentation of `from_utf8_lossy` says); for ill-formed bytes the result
/// is named `utf8_lossy` of the bytes, and how the replacement characters
/// are placed is left unsaid.
#[verifier::external_body]
fn label_text(label: &[u8]) -> (s: String)
    ensures
        valid_utf8(label@) ==> s@ == decode_utf8(label@),
        !valid_utf8(label@) ==> s@ == utf8_lossy(label@),
{
    String::from_utf8_lossy(label).to_string()
}

// ---------------------------------------------------------------------------
// Walking a name on the wire
// ---------------------------------------------------------------------------

/// How a walk over a name on the wire ends: with its labels and the offset
/// just past the name, with an error, or never.
pub enum NameWalk {
    Done(Seq<Seq<u8>>, int),
    Fail(MessageError),
    Endless,
}

/// The offset that a compression pointer made of bytes `b0`, `b1` names.
pub open spec fn pointer_target(b0: u8, b1: u8) -> int {
    (b0 - POINTER_TAG) * 256 + b1
}

/// At most `fuel` steps of reading a name from `bytes` at `pos`. A step
/// reads one length byte: a pointer moves to its target, a zero ends the
/// name, another length reads a label. The name ends after its zero byte,
/// or two bytes after its first pointer when it has one.
pub open spec fn name_walk(bytes: Seq<u8>, pos: int, fuel: nat) -> NameWalk
    decreases fuel,
{
    if fuel == 0 {
        NameWalk::Endless
    } else if !(0 <= pos < bytes.len()) {
        NameWalk::Fail(MessageError::UnexpectedEndOfName)
    } else if bytes[pos] >= POINTER_TAG {
        if pos + 1 >= bytes.len() {
            NameWalk::Fail(MessageError::UnexpectedEndOfPointer)
        } else {
            match name_walk(bytes, pointer_target(bytes[pos], bytes[pos + 1]), (fuel - 1) as nat) {
                NameWalk::Done(labels, _) => NameWalk::Done(labels, pos + 2),
                other => other,
            }
        }
    } else if bytes[pos] == 0 {
        NameWalk::Done(seq![], pos + 1)
    } else if pos + 1 + bytes[pos] > bytes.len() {
        NameWalk::Fail(MessageError::LabelExceedsBuffer)
    } else {
        match name_walk(bytes, pos + 1 + bytes[pos], (fuel - 1) as nat) {
            NameWalk::Done(labels, end) => NameWalk::Done(
                seq![bytes.subrange(pos + 1, pos + 1 + bytes[pos])] + labels,
                end,
            ),
            other => other,
        }
    }
}

/// Reading a name from `bytes` at `start` comes to an end: the compression
/// pointers it follows do not lead round in a circle.
pub open spec fn name_ends(bytes: Seq<u8>, start: int) -> bool {
    exists|fuel: nat| !(#[trigger] name_walk(bytes, start, fuel) is Endless)
}

/// How reading a name from `bytes` at `start` ends.
pub open spec fn name_outcome(bytes: Seq<u8>, start: int) -> NameWalk {
    if name_ends(bytes, start) {
        name_walk(bytes, start, choose|fuel: nat| !(#[trigger] name_walk(bytes, start, fuel) is Endless))
    } else {
        NameWalk::Endless
    }
}

/// More fuel than a walk needed changes nothing.
pub proof fn lemma_name_walk_fuel(bytes: Seq<u8>, pos: int, f: nat, g: nat)
    requires
        !(name_walk(bytes, pos, f) is Endless),
        f <= g,
    ensures
        name_walk(bytes, pos, g) == name_walk(bytes, pos, f),
    decreases f,
{
    if f > 0 && 0 <= pos < bytes.len() {
        if bytes[pos] >= POINTER_TAG {
            if pos + 1 < bytes.len() {
                lemma_name_walk_fuel(
                    bytes,
                    pointer_target(bytes[pos], bytes[pos + 1]),
                    (f - 1) as nat,
                    (g - 1) as nat,
                );
            }
        } else if bytes[pos] != 0 && pos + 1 + bytes[pos] <= bytes.len() {
            lemma_name_walk_fuel(bytes, pos + 1 + bytes[pos], (f - 1) as nat, (g - 1) as nat);
        }
    }
}

/// A walk that ends within some fuel is how reading the name ends.
pub proof fn lemma_name_outcome_is(bytes: Seq<u8>, pos: int, f: nat)
    requires
        !(name_walk(bytes, pos, f) is Endless),
    ensures
        name_ends(bytes, pos),
        name_outcome(bytes, pos) == name_walk(bytes, pos, f),
{
    let g = choose|fuel: nat| !(#[trigger] name_walk(bytes, pos, fuel) is Endless);
    if f <= g {
        lemma_name_walk_fuel(bytes, pos, f, g);
    } else {
        lemma_name_walk_fuel(bytes, pos, g, f);
    }
}

/// A step of the walk at `p` reads a pointer or a non-empty label that the
/// buffer holds, and so goes on.
pub open spec fn step_continues(bytes: Seq<u8>, p: int) -> bool {
    &&& 0 <= p < bytes.len()
    &&& if bytes[p] >= POINTER_TAG {
        p + 1 < bytes.len()
    } else {
        bytes[p] != 0 && p + 1 + bytes[p] <= bytes.len()
    }
}

/// Where a step of the walk at `p` goes on.
pub open spec fn next_step(bytes: Seq<u8>, p: int) -> int {
    if bytes[p] >= POINTER_TAG {
        pointer_target(bytes[p], bytes[p + 1])
    } else {
        p + 1 + bytes[p]
    }
}

/// Where the walk from `p` stands after `k` steps.
pub open spec fn walk_position(bytes: Seq<u8>, p: int, k: nat) -> int
    decreases k,
{
    if k == 0 {
        p
    } else {
        walk_position(bytes, next_step(bytes, p), (k - 1) as nat)
    }
}

/// Every step of the walk from `p` goes on.
pub open spec fn walks_forever(bytes: Seq<u8>, p: int) -> bool {
    forall|k: nat| step_continues(bytes, #[trigger] walk_position(bytes, p, k))
}

proof fn lemma_walk_position_add(bytes: Seq<u8>, p: int, a: nat, c: nat)
    ensures
        walk_position(bytes, p, a + c) == walk_position(bytes, walk_position(bytes, p, a), c),
    decreases a,
{
    if a > 0 {
        lemma_walk_position_add(bytes, next_step(bytes, p), (a - 1) as nat, c);
        assert((a + c - 1) as nat == ((a - 1) as nat + c) as nat);
    }
}

proof fn lemma_walk_forever_endless(bytes: Seq<u8>, p: int, f: nat)
    requires
        walks_forever(bytes, p),
    ensures
        name_walk(bytes, p, f) is Endless,
    decreases f,
{
    if f > 0 {
        assert(step_continues(bytes, walk_position(bytes, p, 0)));
        let q = next_step(bytes, p);
        assert forall|k: nat| step_continues(bytes, #[trigger] walk_position(bytes, q, k)) by {
            assert(walk_position(bytes, p, k + 1) == walk_position(bytes, q, k));
        }
        lemma_walk_forever_endless(bytes, q, (f - 1) as nat);
    }
}

proof fn lemma_cycle_continues(bytes: Seq<u8>, s: int, i: nat, j: nat, k: nat)
    requires
        i < j,
        walk_position(bytes, s, i) == walk_position(bytes, s, j),
        forall|m: nat| m < j ==> step_continues(bytes, #[trigger] walk_position(bytes, s, m)),
    ensures
        step_continues(bytes, walk_position(bytes, s, k)),
    decreases k,
{
    if k >= j {
        let d = (j - i) as nat;
        let k2 = (k - d) as nat;
        lemma_walk_position_add(bytes, s, j, (k - j) as nat);
        lemma_walk_position_add(bytes, s, i, (k - j) as nat);
        assert(k2 == i + (k - j) as nat);
        assert(k == j + (k - j) as nat);
        lemma_cycle_continues(bytes, s, i, j, k2);
    }
}

/// A walk that comes back to a place it stood at, having gone on at every
/// step, goes round forever, so the name never ends.
proof fn lemma_cycle_never_ends(bytes: Seq<u8>, s: int, i: nat, j: nat)
    requires
        i < j,
        walk_position(bytes, s, i) == walk_position(bytes, s, j),
        forall|m: nat| m < j ==> step_continues(bytes, #[trigger] walk_position(bytes, s, m)),
    ensures
        !name_ends(bytes, s),
        name_outcome(bytes, s) is Endless,
{
    assert forall|k: nat| step_continues(bytes, #[trigger] walk_position(bytes, s, k)) by {
        lemma_cycle_continues(bytes, s, i, j, k);
    }
    assert forall|f: nat| #[trigger] name_walk(bytes, s, f) is Endless by {
        lemma_walk_forever_endless(bytes, s, f);
    }
}

/// The labels gathered so far put in front of how the rest of a walk ends;
/// `end` is the offset past the first pointer met so far, if any.
pub open spec fn glue(labels: Seq<Seq<u8>>, end: Option<int>, rest: NameWalk) -> NameWalk {
    match rest {
        NameWalk::Done(more, e) => NameWalk::Done(
            labels + more,
            match end {
                Some(x) => x,
                None => e,
            },
        ),
        other => other,
    }
}

spec fn opt_int(o: Option<usize>) -> Option<int> {
    match o {
        Some(x) => Some(x as int),
        None => None,
    }
}

/// The number of marked places.
spec fn count_marked(s: Seq<bool>) -> nat
    decreases s.len(),
{
    if s.len() == 0 {
        0
    } else {
        count_marked(s.drop_last()) + if s.last() { 1nat } else { 0nat }
    }
}

proof fn lemma_count_marked_none(s: Seq<bool>)
    requires
        forall|q: int| 0 <= q < s.len() ==> !s[q],
    ensures
        count_marked(s) == 0,
    decreases s.len(),
{
    if s.len() > 0 {
        lemma_count_marked_none(s.drop_last());
    }
}

proof fn lemma_count_marked_bound(s: Seq<bool>)
    ensures
        count_marked(s) <= s.len(),
    decreases s.len(),
{
    if s.len() > 0 {
        lemma_count_marked_bound(s.drop_last());
    }
}

proof fn lemma_count_marked_set(s: Seq<bool>, i: int)
    requires
        0 <= i < s.len(),
        !s[i],
    ensures
        count_marked(s.update(i, true)) == count_marked(s) + 1,
    decreases s.len(),
{
    let t = s.update(i, true);
    if i == s.len() - 1 {
        assert(t.drop_last() =~= s.drop_last());
    } else {
        assert(t.drop_last() =~= s.drop_last().update(i, true));
        lemma_count_marked_set(s.drop_last(), i);
    }
}

proof fn lemma_join_dotted_push(parts: Seq<Seq<char>>, x: Seq<char>)
    ensures
        join_dotted(parts.push(x)) == if parts.len() == 0 {
            x
        } else {
            join_dotted(parts) + seq!['.'] + x
        },
    decreases parts.len(),
{
    let p = parts.push(x);
    if parts.len() == 0 {
        assert(p =~= seq![x]);
    } else if parts.len() == 1 {
        assert(p.drop_first() =~= seq![x]);
        assert(join_dotted(seq![x]) == x);
        assert(join_dotted(p) == p[0] + seq!['.'] + join_dotted(p.drop_first()));
    } else {
        assert(p.drop_first() =~= parts.drop_first().push(x));
        lemma_join_dotted_push(parts.drop_first(), x);
        assert(join_dotted(p) == p[0] + seq!['.'] + join_dotted(p.drop_first()));
        assert(join_dotted(parts) == parts[0] + seq!['.'] + join_dotted(parts.drop_first()));
        assert(join_dotted(p) =~= join_dotted(parts) + seq!['.'] + x);
    }
}

proof fn lemma_name_text_push(labels: Seq<Seq<u8>>, label: Seq<u8>)
    ensures
        name_text(labels.push(label)) == if labels.len() == 0 {
            label_chars(label)
        } else {
            name_text(labels) + seq!['.'] + label_chars(label)
        },
{
    let f = |l: Seq<u8>| label_chars(l);
    assert(labels.push(label).map_values(f) =~= labels.map_values(f).push(label_chars(label)));
    lemma_join_dotted_push(labels.map_values(f), label_chars(label));
}

proof fn lemma_walk_stops(
    b: Seq<u8>,
    s: int,
    steps: nat,
    labels: Seq<Seq<u8>>,
    end: Option<int>,
    pos: int,
)
    requires
        forall|f: nat| #[trigger] name_walk(b, s, f + steps) == glue(labels, end, name_walk(b, pos, f)),
        !(name_walk(b, pos, 1) is Endless),
    ensures
        name_ends(b, s),
        name_outcome(b, s) == glue(labels, end, name_walk(b, pos, 1)),
{
    assert(name_walk(b, s, 1 + steps) == glue(labels, end, name_walk(b, pos, 1)));
    lemma_name_outcome_is(b, s, 1 + steps);
}

/// The executable walk agrees with `name_outcome`.
pub open spec fn name_progress_agrees(
    bytes: Seq<u8>,
    start: int,
    r: Progress<(String, usize)>,
) -> bool {
    match name_outcome(bytes, start) {
        NameWalk::Done(labels, end) => r matches Progress::Parsed((name, e)) && name@ == name_text(
            labels,
        ) && e == end,
        NameWalk::Fail(err) => r == Progress::<(String, usize)>::Failed(err),
        NameWalk::Endless => r is Endless,
    }
}

/// Reads a name from `bytes` at `start`, telling apart a name whose
/// pointers lead round forever. `visited` marks each offset that a step has
/// read a length byte at; a step at a marked offset means that the walk has
/// come round to where it stood before and would go round forever.
pub(crate) fn walk_name(bytes: &[u8], start: usize) -> (r: Progress<(String, usize)>)
    ensures
        name_progress_agrees(bytes@, start as int, r),
{
    let ghost b = bytes@;
    let ghost s = start as int;
    let mut visited: Vec<bool> = Vec::new();
    while visited.len() < bytes.len()
        invariant
            visited@.len() <= b.len(),
            b == bytes@,
            forall|q: int| 0 <= q < visited@.len() ==> !visited@[q],
        decreases b.len() - visited@.len(),
    {
        visited.push(false);
    }
    proof {
        lemma_count_marked_none(visited@);
    }

    let mut text = String::new();
    let mut end: Option<usize> = None;
    let mut pos = start;
    let mut marked: usize = 0;
    let mut first = true;
    let ghost mut labels: Seq<Seq<u8>> = seq![];
    let ghost mut steps: nat = 0;

    loop
        invariant
            b == bytes@,
            s == start as int,
            visited@.len() == b.len(),
            marked == count_marked(visited@),
            marked <= b.len(),
            pos as int == walk_position(b, s, steps),
            forall|k: nat| k < steps ==> step_continues(b, #[trigger] walk_position(b, s, k)),
            forall|q: int|
                0 <= q < visited@.len() && #[trigger] visited@[q] ==> exists|k: nat|
                    k < steps && #[trigger] walk_position(b, s, k) == q,
            forall|f: nat|
                #[trigger] name_walk(b, s, f + steps) == glue(
                    labels,
                    opt_int(end),
                    name_walk(b, pos as int, f),
                ),
            text@ == name_text(labels),
            first == (labels.len() == 0),
        decreases b.len() - marked,
    {
        if pos >= bytes.len() {
            let r = Progress::Failed(MessageError::UnexpectedEndOfName);
            proof {
                lemma_walk_stops(b, s, steps, labels, opt_int(end), pos as int);
                assert(name_progress_agrees(b, s, r));
            }
            return r;
        }
        if visited[pos] {
            proof {
                assert(visited@[pos as int]);
                let k = choose|k: nat| k < steps && #[trigger] walk_position(b, s, k) == pos as int;
                lemma_cycle_never_ends(b, s, k, steps);
            }
            let r = Progress::Endless;
            proof {
                assert(name_progress_agrees(b, s, r));
            }
            return r;
        }
        proof {
            lemma_count_marked_set(visited@, pos as int);
            lemma_count_marked_bound(visited@.update(pos as int, true));
        }
        visited.set(pos, true);
        marked = marked + 1;

        let len_byte = bytes[pos];
        let ghost old_pos = pos as int;
        let ghost old_end = opt_int(end);
        let ghost old_labels = labels;
        if len_byte >= POINTER_TAG {
            if pos + 1 >= bytes.len() {
                let r = Progress::Failed(MessageError::UnexpectedEndOfPointer);
                proof {
                    lemma_walk_stops(b, s, steps, labels, opt_int(end), pos as int);
                    assert(name_progress_agrees(b, s, r));
                }
                return r;
            }
            let next = bytes[pos + 1];
            if end.is_none() {
                end = Some(pos + 2);
            }
            pos = ((len_byte - POINTER_TAG) as usize) * 256 + (next as usize);
            proof {
                assert(pos as int == next_step(b, old_pos));
                assert forall|f: nat|
                    #[trigger] name_walk(b, s, f + (steps + 1)) == glue(
                        labels,
                        opt_int(end),
                        name_walk(b, pos as int, f),
                    ) by {
                    assert(name_walk(b, s, (f + 1) + steps) == glue(old_labels, old_end, name_walk(b, old_pos, f + 1)));
                    assert(f + 1 + steps == f + (steps + 1));
                }
            }
        } else {
            let len = len_byte as usize;
            if len == 0 {
                let e = match end {
                    Some(e) => e,
                    None => pos + 1,
                };
                proof {
                    assert(labels + seq![] =~= labels);
                    lemma_walk_stops(b, s, steps, labels, opt_int(end), pos as int);
                }
                return Progress::Parsed((text, e));
            }
            if len > bytes.len() - (pos + 1) {
                let r = Progress::Failed(MessageError::LabelExceedsBuffer);
                proof {
                    lemma_walk_stops(b, s, steps, labels, opt_int(end), pos as int);
                    assert(name_progress_agrees(b, s, r));
                }
                return r;
            }
            let label = slice_subrange(bytes, pos + 1, pos + 1 + len);
            let label_str = label_text(label);
            proof {
                lemma_name_text_push(labels, label@);
            }
            if !first {
                proof {
                    reveal_strlit(".");
                }
                text.append(".");
            }
            text.append(label_str.as_str());
            first = false;
            proof {
                labels = labels.push(label@);
            }
            pos = pos + 1 + len;
            proof {
                assert(pos as int == next_step(b, old_pos));
                assert forall|f: nat|
                    #[trigger] name_walk(b, s, f + (steps + 1)) == glue(
                        labels,
                        opt_int(end),
                        name_walk(b, pos as int, f),
                    ) by {
                    assert(name_walk(b, s, (f + 1) + steps) == glue(old_labels, old_end, name_walk(b, old_pos, f + 1)));
                    assert(f + 1 + steps == f + (steps + 1));
                    match name_walk(b, pos as int, f) {
                        NameWalk::Done(more, e) => {
                            assert(old_labels + (seq![label@] + more) =~= labels + more);
                        },
                        _ => {},
                    }
                }
            }
        }
        proof {
            lemma_walk_position_add(b, s, steps, 1);
            assert(walk_position(b, next_step(b, old_pos), 0) == next_step(b, old_pos));
            assert(walk_position(b, old_pos, 1) == next_step(b, old_pos));
            steps = steps + 1;
        }
    }
}

/// Reads the name that starts at offset `start` of `bytes`, following
/// compression pointers. Returns the name as text, with its labels joined by
/// dots, and the offset just past the name where it stands in `bytes`: past
/// its zero byte, or past its first pointer.
pub fn decode_name(bytes: &[u8], start: usize) -> (r: Result<(String, usize), MessageError>)
    requires
        name_ends(bytes@, start as int),
    ensures
        match name_outcome(bytes@, start as int) {
            NameWalk::Done(labels, end) => r matches Ok((name, e)) && name@ == name_text(labels)
                && e == end,
            NameWalk::Fail(err) => r == Err::<(String, usize), MessageError>(err),
            NameWalk::Endless => false,
        },
{
    match walk_name(bytes, start) {
        Progress::Parsed(v) => Ok(v),
        Progress::Failed(e) => Err(e),
        Progress::Endless => Err(MessageError::UnexpectedEndOfName),
    }
}

// ---------------------------------------------------------------------------
// Writing a name
// ---------------------------------------------------------------------------

/// `s` cut at every `sep`: the pieces between separators, in order, empty
/// pieces included.
pub open spec fn split_on<T>(s: Seq<T>, sep: T) -> Seq<Seq<T>>
    decreases s.len(),
{
    if s.len() == 0 {
        seq![seq![]]
    } else {
        let rest = split_on(s.drop_first(), sep);
        if s[0] == sep {
            seq![seq![]] + rest
        } else {
            rest.update(0, seq![s[0]] + rest[0])
        }
    }
}

/// A label on the wire: its length in one byte (cut to eight bits), then its
/// bytes.
pub open spec fn label_wire(label: Seq<u8>) -> Seq<u8> {
    seq![label.len() as u8] + label
}

/// The labels on the wire, one after the other.
pub open spec fn labels_wire(labels: Seq<Seq<u8>>) -> Seq<u8>
    decreases labels.len(),
{
    if labels.len() == 0 {
        seq![]
    } else {
        label_wire(labels[0]) + labels_wire(labels.drop_first())
    }
}

/// The labels of a name written as text: its UTF-8 bytes cut at every dot.
pub open spec fn name_labels(name: Seq<char>) -> Seq<Seq<u8>> {
    split_on(encode_utf8(name), DOT)
}

/// A name on the wire: its labels, then a zero byte.
pub open spec fn name_wire(name: Seq<char>) -> Seq<u8> {
    labels_wire(name_labels(name)) + seq![0u8]
}

pub proof fn lemma_split_on_len<T>(s: Seq<T>, sep: T)
    ensures
        split_on(s, sep).len() >= 1,
    decreases s.len(),
{
    if s.len() > 0 {
        lemma_split_on_len(s.drop_first(), sep);
    }
}

/// Cutting `s` with one more element at its end.
pub proof fn lemma_split_on_push<T>(s: Seq<T>, x: T, sep: T)
    ensures
        split_on(s.push(x), sep) == if x == sep {
            split_on(s, sep).push(seq![])
        } else {
            split_on(s, sep).update(
                split_on(s, sep).len() - 1,
                split_on(s, sep).last().push(x),
            )
        },
    decreases s.len(),
{
    lemma_split_on_len(s, sep);
    let t = s.push(x);
    if s.len() == 0 {
        assert(t.drop_first() =~= Seq::<T>::empty());
        assert(split_on(Seq::<T>::empty(), sep) == seq![Seq::<T>::empty()]);
        if x == sep {
            assert(split_on(t, sep) =~= split_on(s, sep).push(seq![]));
        } else {
            assert(split_on(t, sep) =~= split_on(s, sep).update(0, seq![x]));
            assert(seq![x] =~= Seq::<T>::empty().push(x));
        }
    } else {
        assert(t.drop_first() =~= s.drop_first().push(x));
        lemma_split_on_push(s.drop_first(), x, sep);
        lemma_split_on_len(s.drop_first(), sep);
        let r = split_on(s.drop_first(), sep);
        if x == sep {
            if s[0] == sep {
                assert(split_on(t, sep) =~= split_on(s, sep).push(seq![]));
            } else {
                assert(split_on(t, sep) =~= split_on(s, sep).push(seq![]));
            }
        } else {
            let n = split_on(s, sep).len() - 1;
            if s[0] == sep {
                assert(split_on(t, sep) =~= split_on(s, sep).update(n, split_on(s, sep).last().push(x)));
            } else {
                if r.len() == 1 {
                    assert(seq![s[0]] + r[0].push(x) =~= (seq![s[0]] + r[0]).push(x));
                }
                assert(split_on(t, sep) =~= split_on(s, sep).update(n, split_on(s, sep).last().push(x)));
            }
        }
    }
}

/// Writing one more label at the end.
pub proof fn lemma_labels_wire_push(labels: Seq<Seq<u8>>, label: Seq<u8>)
    ensures
        labels_wire(labels.push(label)) == labels_wire(labels) + label_wire(label),
    decreases labels.len(),
{
    let p = labels.push(label);
    if labels.len() == 0 {
        assert(p.drop_first() =~= Seq::<Seq<u8>>::empty());
        assert(labels_wire(p) == label_wire(p[0]) + labels_wire(p.drop_first()));
        assert(labels_wire(Seq::<Seq<u8>>::empty()) == Seq::<u8>::empty());
        assert(labels_wire(p) =~= labels_wire(labels) + label_wire(label));
    } else {
        assert(p.drop_first() =~= labels.drop_first().push(label));
        lemma_labels_wire_push(labels.drop_first(), label);
        assert(p[0] == labels[0]);
        assert(labels_wire(p) == label_wire(labels[0]) + labels_wire(labels.drop_first().push(label)));
        assert(labels_wire(labels) == label_wire(labels[0]) + labels_wire(labels.drop_first()));
        assert(labels_wire(p) =~= labels_wire(labels) + label_wire(label));
    }
}

/// Writes a name given as text: each piece between dots as a length byte
/// and its UTF-8 bytes, then a zero byte. A piece longer than 255 bytes has
/// its length cut to the low eight bits.
pub fn encode_name(name: &str) -> (bytes: Vec<u8>)
    ensures
        bytes@ == name_wire(name@),
{
    let b = name.as_bytes();
    let mut out: Vec<u8> = Vec::new();
    out.push(0);
    let mut len_at: usize = 0;
    let mut count: usize = 0;
    proof {
        assert(b@.take(0) =~= Seq::<u8>::empty());
        assert(out@ =~= labels_wire(split_on(b@.take(0), DOT).drop_last()) + seq![0u8] + split_on(
            b@.take(0),
            DOT,
        ).last());
    }
    for i in 0..b.len()
        invariant
            b@ == encode_utf8(name@),
            out@ == labels_wire(split_on(b@.take(i as int), DOT).drop_last()) + seq![0u8]
                + split_on(b@.take(i as int), DOT).last(),
            len_at as int == labels_wire(split_on(b@.take(i as int), DOT).drop_last()).len(),
            count as int == split_on(b@.take(i as int), DOT).last().len(),
            out@.len() == len_at + 1 + count,
            count <= i,
    {
        let ghost sp = split_on(b@.take(i as int), DOT);
        proof {
            assert(b@.take(i + 1) =~= b@.take(i as int).push(b@[i as int]));
            lemma_split_on_push(b@.take(i as int), b@[i as int], DOT);
            lemma_split_on_len(b@.take(i as int), DOT);
        }
        if b[i] == DOT {
            #[verifier::truncate]
            let n = count as u8;
            out.set(len_at, n);
            proof {
                assert(sp =~= sp.drop_last().push(sp.last()));
                lemma_labels_wire_push(sp.drop_last(), sp.last());
                assert(out@ =~= labels_wire(sp) );
            }
            len_at = out.len();
            out.push(0);
            count = 0;
            proof {
                let sp2 = sp.push(seq![]);
                assert(sp2.drop_last() =~= sp);
                assert(out@ =~= labels_wire(sp2.drop_last()) + seq![0u8] + sp2.last());
            }
        } else {
            out.push(b[i]);
            count = count + 1;
            proof {
                let sp2 = sp.update(sp.len() - 1, sp.last().push(b@[i as int]));
                assert(sp2.drop_last() =~= sp.drop_last());
                assert(out@ =~= labels_wire(sp2.drop_last()) + seq![0u8] + sp2.last());
            }
        }
    }
    let ghost sp = split_on(b@, DOT);
    proof {
        assert(b@.take(b@.len() as int) =~= b@);
        lemma_split_on_len(b@, DOT);
        assert(sp =~= sp.drop_last().push(sp.last()));
        lemma_labels_wire_push(sp.drop_last(), sp.last());
    }
    #[verifier::truncate]
    let n = count as u8;
    out.set(len_at, n);
    out.push(0);
    proof {
        assert(out@ =~= name_wire(name@));
    }
    out
}

// ---------------------------------------------------------------------------
// Writing a name and reading it back
// ---------------------------------------------------------------------------

/// Every label of the name is non-empty and shorter than 192 bytes, so its
/// length byte is neither the end of the name nor a pointer.
pub open spec fn name_fits(name: Seq<char>) -> bool {
    forall|i: int|
        0 <= i < name_labels(name).len() ==> 0 < (#[trigger] name_labels(name)[i]).len()
            < POINTER_TAG
}

proof fn lemma_walk_labels(bytes: Seq<u8>, p: int, labels: Seq<Seq<u8>>)
    requires
        forall|i: int| 0 <= i < labels.len() ==> 0 < (#[trigger] labels[i]).len() < POINTER_TAG,
        0 <= p,
        p + labels_wire(labels).len() + 1 <= bytes.len(),
        bytes.subrange(p, p + labels_wire(labels).len() + 1) == labels_wire(labels) + seq![0u8],
    ensures
        name_walk(bytes, p, labels.len() + 1) == NameWalk::Done(
            labels,
            p + labels_wire(labels).len() + 1,
        ),
    decreases labels.len(),
{
    let w = labels_wire(labels);
    assert(bytes[p] == (labels_wire(labels) + seq![0u8])[0]);
    if labels.len() == 0 {
        assert(w.len() == 0);
        assert(labels =~= Seq::<Seq<u8>>::empty());
        assert(bytes[p] == 0);
    } else {
        let l = labels[0];
        let rest = labels.drop_first();
        let wr = labels_wire(rest);
        assert(w == label_wire(l) + wr);
        assert(bytes[p] == l.len());
        let q = p + 1 + l.len();
        assert(bytes.subrange(p + 1, q) =~= l) by {
            assert forall|i: int| 0 <= i < l.len() implies bytes.subrange(p + 1, q)[i] == l[i] by {
                assert(bytes.subrange(p + 1, q)[i] == bytes.subrange(p, p + w.len() + 1)[i + 1]);
                assert((w + seq![0u8])[i + 1] == l[i]);
            }
        }
        assert(bytes.subrange(q, q + wr.len() + 1) =~= wr + seq![0u8]) by {
            assert forall|i: int| 0 <= i < wr.len() + 1 implies bytes.subrange(q, q + wr.len() + 1)[i]
                == (wr + seq![0u8])[i] by {
                assert(bytes.subrange(q, q + wr.len() + 1)[i] == bytes.subrange(p, p + w.len() + 1)[i + 1
                    + l.len()]);
            }
        }
        assert forall|i: int| 0 <= i < rest.len() implies 0 < (#[trigger] rest[i]).len() < POINTER_TAG by {
            assert(rest[i] == labels[i + 1]);
        }
        lemma_walk_labels(bytes, q, rest);
        assert(seq![l] + rest =~= labels);
        assert(!(bytes[p] >= POINTER_TAG));
        assert(bytes[p] != 0);
        assert(p + 1 + bytes[p] <= bytes.len());
        assert(q == p + 1 + bytes[p]);
        let fuel = (labels.len() + 1) as nat;
        assert((fuel - 1) as nat == rest.len() + 1);
        assert(name_walk(bytes, q, (fuel - 1) as nat) == NameWalk::Done(rest, q + wr.len() + 1));
        assert(name_walk(bytes, p, fuel) == NameWalk::Done(
            seq![bytes.subrange(p + 1, p + 1 + bytes[p])] + rest,
            q + wr.len() + 1,
        ));
        assert(w.len() == 1 + l.len() + wr.len());
        assert(bytes.subrange(p + 1, p + 1 + bytes[p]) == l);
        assert(seq![bytes.subrange(p + 1, p + 1 + bytes[p])] + rest == labels);
    }
}

/// `c` as a one-character text piece, encoded.
proof fn lemma_encode_utf8_cons(c: char, t: Seq<char>)
    ensures
        encode_utf8(seq![c] + t) == vstd::utf8::encode_scalar(c as u32) + encode_utf8(t),
{
    assert((seq![c] + t).drop_first() =~= t);
}

proof fn lemma_byte_bounds(v: u32)
    by (bit_vector)
    ensures
        v <= 0x7F ==> ((v & 0x7F) as u8 == 0x2Eu8 ==> v == 0x2E),
        (0xC0u8 | ((v >> 6u32) & 0x1F) as u8) != 0x2Eu8,
        (0xE0u8 | ((v >> 12u32) & 0x0F) as u8) != 0x2Eu8,
        (0xF0u8 | ((v >> 18u32) & 0x7) as u8) != 0x2Eu8,
        (0x80u8 | (v & 0x3F) as u8) != 0x2Eu8,
        (0x80u8 | ((v >> 6u32) & 0x3F) as u8) != 0x2Eu8,
        (0x80u8 | ((v >> 12u32) & 0x3F) as u8) != 0x2Eu8,
{
}

/// The UTF-8 bytes of a character other than a dot hold no dot byte.
proof fn lemma_scalar_has_no_dot(c: char)
    requires
        c != '.',
    ensures
        forall|i: int|
            0 <= i < vstd::utf8::encode_scalar(c as u32).len() ==> #[trigger] vstd::utf8::encode_scalar(
                c as u32,
            )[i] != DOT,
{
    let v = c as u32;
    lemma_byte_bounds(v);
    vstd::utf8::char_is_scalar(c);
    if v == 0x2E {
        vstd::utf8::char_u32_cast(c, v);
        vstd::utf8::char_u32_cast('.', ('.' as u32));
        assert('.' as u32 == 0x2E);
    }
}

/// The UTF-8 bytes of a dot are the one dot byte.
proof fn lemma_scalar_of_dot()
    ensures
        vstd::utf8::encode_scalar('.' as u32) == seq![DOT],
{
    assert('.' as u32 == 0x2E);
    assert((0x2Eu32 & 0x7Fu32) as u8 == 0x2Eu8) by (bit_vector);
    assert(vstd::utf8::encode_scalar('.' as u32) =~= seq![DOT]);
}

/// Cutting a sequence that starts with a piece holding no separator.
proof fn lemma_split_on_prefix<T>(y: Seq<T>, x: Seq<T>, sep: T)
    requires
        forall|i: int| 0 <= i < y.len() ==> y[i] != sep,
    ensures
        split_on(y + x, sep) == split_on(x, sep).update(0, y + split_on(x, sep)[0]),
    decreases y.len(),
{
    lemma_split_on_len(x, sep);
    if y.len() == 0 {
        assert(y + x =~= x);
        assert(split_on(x, sep) =~= split_on(x, sep).update(0, y + split_on(x, sep)[0]));
    } else {
        let y2 = y.drop_first();
        lemma_split_on_prefix(y2, x, sep);
        assert((y + x).drop_first() =~= y2 + x);
        assert((y + x)[0] == y[0]);
        lemma_split_on_len(y2 + x, sep);
        assert(seq![y[0]] + (y2 + split_on(x, sep)[0]) =~= y + split_on(x, sep)[0]);
        assert(split_on(y + x, sep) =~= split_on(x, sep).update(0, y + split_on(x, sep)[0]));
    }
}

/// Cutting the UTF-8 bytes of a text at dot bytes gives the UTF-8 bytes of
/// the text cut at dots.
proof fn lemma_split_encode(name: Seq<char>)
    ensures
        split_on(encode_utf8(name), DOT) == split_on(name, '.').map_values(
            |piece: Seq<char>| encode_utf8(piece),
        ),
    decreases name.len(),
{
    let f = |piece: Seq<char>| encode_utf8(piece);
    if name.len() == 0 {
        assert(encode_utf8(name) =~= Seq::<u8>::empty());
        assert(encode_utf8(Seq::<char>::empty()) =~= Seq::<u8>::empty());
        assert(split_on(name, '.').map_values(f) =~= split_on(encode_utf8(name), DOT));
    } else {
        let c = name[0];
        let r = name.drop_first();
        assert(name =~= seq![c] + r);
        lemma_encode_utf8_cons(c, r);
        lemma_split_encode(r);
        lemma_split_on_len(r, '.');
        let sr = split_on(r, '.');
        if c == '.' {
            lemma_scalar_of_dot();
            let e = encode_utf8(name);
            assert(e[0] == DOT);
            assert(e.drop_first() =~= encode_utf8(r));
            assert(encode_utf8(Seq::<char>::empty()) =~= Seq::<u8>::empty());
            assert(split_on(name, '.') == seq![Seq::<char>::empty()] + sr);
            assert(split_on(encode_utf8(name), DOT) =~= split_on(name, '.').map_values(f));
        } else {
            lemma_scalar_has_no_dot(c);
            let y = vstd::utf8::encode_scalar(c as u32);
            lemma_split_on_prefix(y, encode_utf8(r), DOT);
            assert(split_on(name, '.') == sr.update(0, seq![c] + sr[0]));
            lemma_encode_utf8_cons(c, sr[0]);
            assert(split_on(encode_utf8(name), DOT) =~= split_on(name, '.').map_values(f));
        }
    }
}

/// Joining the pieces of a text cut at dots gives the text.
proof fn lemma_join_split(name: Seq<char>)
    ensures
        join_dotted(split_on(name, '.')) == name,
    decreases name.len(),
{
    if name.len() == 0 {
        assert(split_on(name, '.') == seq![Seq::<char>::empty()]);
        assert(join_dotted(seq![Seq::<char>::empty()]) == Seq::<char>::empty());
    } else {
        let c = name[0];
        let r = name.drop_first();
        lemma_join_split(r);
        lemma_split_on_len(r, '.');
        let sr = split_on(r, '.');
        if c == '.' {
            let sp = seq![Seq::<char>::empty()] + sr;
            assert(sp.drop_first() =~= sr);
            assert(join_dotted(sp) == sp[0] + seq!['.'] + join_dotted(sp.drop_first()));
            assert(join_dotted(sp) =~= name);
        } else {
            let sp = sr.update(0, seq![c] + sr[0]);
            if sr.len() == 1 {
                assert(join_dotted(sr) == sr[0]);
                assert(join_dotted(sp) == sp[0]);
                assert(join_dotted(sp) =~= name);
            } else {
                assert(sp.drop_first() =~= sr.drop_first());
                assert(join_dotted(sp) == sp[0] + seq!['.'] + join_dotted(sp.drop_first()));
                assert(join_dotted(sr) == sr[0] + seq!['.'] + join_dotted(sr.drop_first()));
                assert(name =~= seq![c] + r);
                assert(join_dotted(sp) =~= name);
            }
        }
    }
}

/// The labels of a name, read back as text, give the name.
pub proof fn lemma_name_text_of_labels(name: Seq<char>)
    ensures
        name_text(name_labels(name)) == name,
{
    let f = |piece: Seq<char>| encode_utf8(piece);
    let g = |l: Seq<u8>| label_chars(l);
    lemma_split_encode(name);
    let pieces = split_on(name, '.');
    assert(name_labels(name).map_values(g) =~= pieces) by {
        assert forall|i: int| 0 <= i < pieces.len() implies name_labels(name).map_values(g)[i]
            == pieces[i] by {
            vstd::utf8::encode_utf8_valid_utf8(pieces[i]);
            vstd::utf8::encode_utf8_decode_utf8(pieces[i]);
        }
    }
    lemma_join_split(name);
}

/// A name written to the wire reads back as the same name, wherever it
/// stands in a buffer and whatever surrounds it, when every label of the
/// name is non-empty and shorter than 192 bytes; the reading ends just past
/// the written name.
pub proof fn lemma_name_write_then_read(name: Seq<char>, before: Seq<u8>, after: Seq<u8>)
    requires
        name_fits(name),
    ensures
        name_ends(before + name_wire(name) + after, before.len() as int),
        name_outcome(before + name_wire(name) + after, before.len() as int) == NameWalk::Done(
            name_labels(name),
            (before.len() + name_wire(name).len()) as int,
        ),
        name_text(name_labels(name)) == name,
{
    let bytes = before + name_wire(name) + after;
    let p = before.len() as int;
    let w = name_wire(name);
    assert(bytes.subrange(p, p + w.len()) =~= w);
    lemma_walk_labels(bytes, p, name_labels(name));
    lemma_name_outcome_is(bytes, p, name_labels(name).len() + 1);
    lemma_name_text_of_labels(name);
}

// ---------------------------------------------------------------------------
// Bytes after a name
// ---------------------------------------------------------------------------

/// A walk that reaches the end of its name reads no byte past the buffer,
/// so bytes appended to the buffer change nothing about it.
pub proof fn lemma_name_walk_extend(bytes: Seq<u8>, extra: Seq<u8>, pos: int, f: nat)
    requires
        name_walk(bytes, pos, f) is Done,
    ensures
        name_walk(bytes + extra, pos, f) == name_walk(bytes, pos, f),
        name_walk(bytes, pos, f) matches NameWalk::Done(_, end) && 0 < end <= bytes.len(),
    decreases f,
{
    let b2 = bytes + extra;
    assert(f > 0 && 0 <= pos < bytes.len());
    assert(b2[pos] == bytes[pos]);
    if bytes[pos] >= POINTER_TAG {
        assert(pos + 1 < bytes.len());
        assert(b2[pos + 1] == bytes[pos + 1]);
        lemma_name_walk_extend(
            bytes,
            extra,
            pointer_target(bytes[pos], bytes[pos + 1]),
            (f - 1) as nat,
        );
    } else if bytes[pos] != 0 {
        assert(pos + 1 + bytes[pos] <= bytes.len());
        assert(b2.subrange(pos + 1, pos + 1 + bytes[pos]) =~= bytes.subrange(
            pos + 1,
            pos + 1 + bytes[pos],
        ));
        lemma_name_walk_extend(bytes, extra, pos + 1 + bytes[pos], (f - 1) as nat);
    }
}

/// Bytes appended after a buffer change nothing about reading a name in it
/// that reads to its end.
pub proof fn lemma_name_outcome_extend(bytes: Seq<u8>, extra: Seq<u8>, pos: int)
    requires
        name_outcome(bytes, pos) is Done,
    ensures
        name_outcome(bytes + extra, pos) == name_outcome(bytes, pos),
        name_outcome(bytes, pos) matches NameWalk::Done(_, end) && 0 < end <= bytes.len(),
{
    let f = choose|fuel: nat| !(#[trigger] name_walk(bytes, pos, fuel) is Endless);
    lemma_name_walk_extend(bytes, extra, pos, f);
    lemma_name_outcome_is(bytes + extra, pos, f);
}

// ---------------------------------------------------------------------------
// Pointers and labels, one step at a time
// ---------------------------------------------------------------------------

proof fn lemma_pointer_offset_bits(b0: u8, b1: u8)
    by (bit_vector)
    requires
        b0 & 0xC0u8 == 0xC0u8,
    ensures
        b0 >= 0xC0u8,
        ((((b0 & 0x3Fu8) as u16) << 8u16) | (b1 as u16)) == ((b0 - 0xC0u8) as u16) * 256u16 + (
        b1 as u16),
        ((b0 - 0xC0u8) as u16) * 256u16 + (b1 as u16) <= 0x3FFFu16,
{
}

/// A length byte whose top two bits are set is a compression pointer
/// (RFC 1035 4.1.4): the name read there is the name read at the offset
/// given by the low fourteen bits of the pointer's two bytes, and it ends
/// two bytes after the pointer. Reading comes to an end at the pointer
/// exactly when it does at that offset.
pub proof fn lemma_pointer_followed(bytes: Seq<u8>, p: int)
    requires
        0 <= p,
        p + 1 < bytes.len(),
        bytes[p] & 0xC0u8 == 0xC0u8,
    ensures
        ({
            let t = ((((bytes[p] & 0x3Fu8) as u16) << 8u16) | (bytes[p + 1] as u16)) as int;
            &&& name_ends(bytes, p) == name_ends(bytes, t)
            &&& name_outcome(bytes, p) == match name_outcome(bytes, t) {
                NameWalk::Done(labels, _) => NameWalk::Done(labels, p + 2),
                other => other,
            }
        }),
{
    let b0 = bytes[p];
    let b1 = bytes[p + 1];
    lemma_pointer_offset_bits(b0, b1);
    let t = ((((b0 & 0x3Fu8) as u16) << 8u16) | (b1 as u16)) as int;
    assert(t == pointer_target(b0, b1));
    if name_ends(bytes, t) {
        let f = choose|fuel: nat| !(#[trigger] name_walk(bytes, t, fuel) is Endless);
        lemma_name_outcome_is(bytes, t, f);
        assert(name_walk(bytes, p, f + 1) == match name_walk(bytes, t, f) {
            NameWalk::Done(labels, _) => NameWalk::Done(labels, p + 2),
            other => other,
        });
        lemma_name_outcome_is(bytes, p, f + 1);
    } else {
        assert forall|f: nat| #[trigger] name_walk(bytes, p, f) is Endless by {
            if f > 0 {
                assert(name_walk(bytes, t, (f - 1) as nat) is Endless);
            }
        }
    }
}

/// A length byte from 1 to 191 starts a label of that many bytes: the name
/// read there is that label followed by the labels of the name read just
/// after it, ending where that one ends. A zero byte is the empty name,
/// ending right after it.
pub proof fn lemma_label_read(bytes: Seq<u8>, p: int)
    requires
        0 <= p < bytes.len(),
        bytes[p] & 0xC0u8 != 0xC0u8,
    ensures
        bytes[p] == 0 ==> name_ends(bytes, p) && name_outcome(bytes, p) == NameWalk::Done(
            seq![],
            p + 1,
        ),
        bytes[p] != 0 && p + 1 + bytes[p] > bytes.len() ==> name_ends(bytes, p) && name_outcome(
            bytes,
            p,
        ) == NameWalk::Fail(MessageError::LabelExceedsBuffer),
        bytes[p] != 0 && p + 1 + bytes[p] <= bytes.len() ==> ({
            let q = p + 1 + bytes[p];
            let label = bytes.subrange(p + 1, q);
            &&& label.len() == bytes[p]
            &&& name_ends(bytes, p) == name_ends(bytes, q)
            &&& name_outcome(bytes, p) == match name_outcome(bytes, q) {
                NameWalk::Done(labels, end) => NameWalk::Done(seq![label] + labels, end),
                other => other,
            }
        }),
{
    let b = bytes[p];
    assert(b & 0xC0u8 != 0xC0u8 ==> b < 0xC0u8) by (bit_vector);
    if b == 0 || p + 1 + b > bytes.len() {
        lemma_name_outcome_is(bytes, p, 1);
    } else {
        let q = p + 1 + b;
        if name_ends(bytes, q) {
            let f = choose|fuel: nat| !(#[trigger] name_walk(bytes, q, fuel) is Endless);
            lemma_name_outcome_is(bytes, q, f);
            lemma_name_outcome_is(bytes, p, f + 1);
        } else {
            assert forall|f: nat| #[trigger] name_walk(bytes, p, f) is Endless by {
                if f > 0 {
                    assert(name_walk(bytes, q, (f - 1) as nat) is Endless);
                }
            }
        }
    }
}

/// How a name is written: the UTF-8 bytes of the text before its first dot
/// as one label (preceded by their count, cut to eight bits), then the text
/// after that dot written the same way; text with no dot is one label
/// followed by the zero byte that ends the name.
pub proof fn lemma_name_wire_labels(first: Seq<char>, rest: Seq<char>)
    requires
        forall|i: int| 0 <= i < first.len() ==> first[i] != '.',
    ensures
        name_wire(first + seq!['.'] + rest) == seq![encode_utf8(first).len() as u8] + encode_utf8(
            first,
        ) + name_wire(rest),
        name_wire(first) == seq![encode_utf8(first).len() as u8] + encode_utf8(first) + seq![0u8],
{
    let f = |piece: Seq<char>| encode_utf8(piece);
    let dotted = seq!['.'] + rest;
    lemma_split_on_prefix(first, dotted, '.');
    assert(dotted.drop_first() =~= rest);
    assert(split_on(dotted, '.') == seq![Seq::<char>::empty()] + split_on(rest, '.'));
    lemma_split_on_len(rest, '.');
    assert(first + dotted =~= first + seq!['.'] + rest);
    let sp = split_on(first + seq!['.'] + rest, '.');
    assert(sp =~= seq![first] + split_on(rest, '.'));
    lemma_split_encode(first + seq!['.'] + rest);
    lemma_split_encode(rest);
    let ls = name_labels(first + seq!['.'] + rest);
    assert(ls =~= seq![encode_utf8(first)] + name_labels(rest));
    assert(ls.drop_first() =~= name_labels(rest));
    assert(labels_wire(ls) == label_wire(ls[0]) + labels_wire(ls.drop_first()));
    assert(name_wire(first + seq!['.'] + rest) =~= seq![encode_utf8(first).len() as u8]
        + encode_utf8(first) + name_wire(rest));

    lemma_split_on_prefix(first, Seq::<char>::empty(), '.');
    assert(first + Seq::<char>::empty() =~= first);
    assert(split_on(first, '.') =~= seq![first]);
    lemma_split_encode(first);
    let l1 = name_labels(first);
    assert(l1 =~= seq![encode_utf8(first)]);
    assert(l1.drop_first() =~= Seq::<Seq<u8>>::empty());
    assert(labels_wire(l1) == label_wire(l1[0]) + labels_wire(l1.drop_first()));
    assert(labels_wire(Seq::<Seq<u8>>::empty()) == Seq::<u8>::empty());
    assert(name_wire(first) =~= seq![encode_utf8(first).len() as u8] + encode_utf8(first) + seq![
        0u8,
    ]);
}

/// The text of a name read from labels: no labels give the empty text; one
/// label gives its text; more give the first label's text, a dot, and the
/// text of the others. A label that is well-formed UTF-8 gives the text it
/// encodes.
pub proof fn lemma_name_text_labels(label: Seq<u8>, more: Seq<Seq<u8>>)
    ensures
        name_text(Seq::<Seq<u8>>::empty()) == Seq::<char>::empty(),
        name_text(seq![label]) == label_chars(label),
        more.len() > 0 ==> name_text(seq![label] + more) == label_chars(label) + seq!['.']
            + name_text(more),
        valid_utf8(label) ==> label_chars(label) == decode_utf8(label),
{
    let g = |l: Seq<u8>| label_chars(l);
    assert(Seq::<Seq<u8>>::empty().map_values(g) =~= Seq::<Seq<char>>::empty());
    assert(seq![label].map_values(g) =~= seq![label_chars(label)]);
    if more.len() > 0 {
        let all = (seq![label] + more).map_values(g);
        assert(all.drop_first() =~= more.map_values(g));
        assert(all[0] == label_chars(label));
    }
}

} // verus!
