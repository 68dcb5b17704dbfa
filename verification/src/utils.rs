//! Slash-separated paths.
use vstd::prelude::*;
use vstd::string::*;

verus! {

broadcast use vstd::string::group_string_axioms;

/// `String::push` appends the character.
pub assume_specification[ String::push ](s: &mut String, c: char)
    ensures
        final(s)@ == old(s)@.push(c),
;

/// The texts that strings hold.
pub open spec fn texts(v: Seq<String>) -> Seq<Seq<char>> {
    Seq::new(v.len(), |i: int| v[i]@)
}

/// The pieces of `s` between slashes.
pub open spec fn split_slash(s: Seq<char>) -> Seq<Seq<char>>
    decreases s.len(),
{
    if s.len() == 0 {
        seq![Seq::<char>::empty()]
    } else {
        let before = split_slash(s.drop_last());
        if s.last() == '/' {
            before.push(Seq::<char>::empty())
        } else {
            before.update(before.len() - 1, before.last().push(s.last()))
        }
    }
}

/// A piece that names something: neither empty nor a single dot.
pub open spec fn is_named(c: Seq<char>) -> bool {
    c.len() > 0 && !is_dot(c)
}

/// The text `.`.
pub open spec fn is_dot(c: Seq<char>) -> bool {
    c.len() == 1 && c[0] == '.'
}

/// The text `..`.
pub open spec fn is_dot_dot(c: Seq<char>) -> bool {
    c.len() == 2 && c[0] == '.' && c[1] == '.'
}

/// The elements of `pieces` that name something, in order.
pub open spec fn named(pieces: Seq<Seq<char>>) -> Seq<Seq<char>>
    decreases pieces.len(),
{
    if pieces.len() == 0 {
        Seq::empty()
    } else {
        let before = named(pieces.drop_last());
        if is_named(pieces.last()) {
            before.push(pieces.last())
        } else {
            before
        }
    }
}

/// The components of a path.
pub open spec fn components(path: Seq<char>) -> Seq<Seq<char>> {
    named(split_slash(path))
}

/// `parts` with each `.` dropped and each `..` undoing the part before it.
pub open spec fn normalized(parts: Seq<Seq<char>>) -> Seq<Seq<char>>
    decreases parts.len(),
{
    if parts.len() == 0 {
        Seq::empty()
    } else {
        let before = normalized(parts.drop_last());
        if is_dot(parts.last()) {
            before
        } else if is_dot_dot(parts.last()) {
            if before.len() == 0 {
                before
            } else {
                before.drop_last()
            }
        } else {
            before.push(parts.last())
        }
    }
}

/// `parts` with a slash before each of them.
pub open spec fn slashed(parts: Seq<Seq<char>>) -> Seq<char>
    decreases parts.len(),
{
    if parts.len() == 0 {
        Seq::empty()
    } else {
        slashed(parts.drop_last()).push('/') + parts.last()
    }
}

/// The absolute path through `parts`, normalized.
pub open spec fn absolute(parts: Seq<Seq<char>>) -> Seq<char> {
    let n = normalized(parts);
    if n.len() == 0 {
        seq!['/']
    } else {
        slashed(n)
    }
}

/// The characters of `s`.
pub fn chars_of(s: &str) -> (r: Vec<char>)
    ensures
        r@ == s@,
{
    let mut r: Vec<char> = Vec::new();
    let mut it = s.chars();
    loop
        invariant
            r@ + vstd::std_specs::iter::IteratorSpec::remaining(&it) == s@,
            vstd::std_specs::iter::IteratorSpec::obeys_prophetic_iter_laws(&it),
        decreases s@.len() - r@.len(),
    {
        let ghost rest = vstd::std_specs::iter::IteratorSpec::remaining(&it);
        let ghost had = r@;
        match it.next() {
            Some(c) => {
                r.push(c);
                assert(had + rest =~= r@ + rest.drop_first());
            },
            None => {
                assert(had + rest =~= r@);
                return r;
            },
        }
    }
}

/// The string of the characters `v`.
pub fn string_of(v: &[char]) -> (r: String)
    ensures
        r@ == v@,
{
    let mut r = String::new();
    let mut i: usize = 0;
    while i < v.len()
        invariant
            i <= v@.len(),
            r@ == v@.subrange(0, i as int),
        decreases v@.len() - i,
    {
        r.push(v[i]);
        i = i + 1;
        assert(v@.subrange(0, i as int) =~= v@.subrange(0, i - 1).push(v@[i - 1]));
    }
    assert(v@.subrange(0, i as int) =~= v@);
    r
}

/// The pieces of a path with their rootedness: a leading slash and a leading dot
/// count as pieces of their own.
pub open spec fn full_parts(path: Seq<char>) -> Seq<Seq<char>> {
    if path.len() > 0 && path[0] == '/' {
        seq![seq!['/']] + components(path)
    } else if is_dot(split_slash(path)[0]) {
        seq![seq!['.']] + components(path)
    } else {
        components(path)
    }
}

/// True if the pieces of `prefix` are the first pieces of `path`.
pub open spec fn path_starts_with(path: Seq<char>, prefix: Seq<char>) -> bool {
    full_parts(prefix).is_prefix_of(full_parts(path))
}

/// True if two paths have the same pieces.
pub open spec fn same_path(a: Seq<char>, b: Seq<char>) -> bool {
    full_parts(a) == full_parts(b)
}

pub open spec fn char_rows(v: Seq<Vec<char>>) -> Seq<Seq<char>> {
    Seq::new(v.len(), |i: int| v[i]@)
}

/// The pieces of `path` between slashes.
fn split_path(path: &[char]) -> (r: Vec<Vec<char>>)
    ensures
        char_rows(r@) == split_slash(path@),
        r@.len() > 0,
{
    let mut done: Vec<Vec<char>> = Vec::new();
    let mut last: Vec<char> = Vec::new();
    let mut i: usize = 0;
    assert(char_rows(done@).push(last@) =~= split_slash(path@.subrange(0, 0)));
    while i < path.len()
        invariant
            i <= path@.len(),
            char_rows(done@).push(last@) == split_slash(path@.subrange(0, i as int)),
        decreases path@.len() - i,
    {
        let c = path[i];
        let ghost before = char_rows(done@);
        let ghost piece = last@;
        let ghost upto = path@.subrange(0, i as int);
        assert(path@.subrange(0, i + 1).drop_last() =~= upto);
        assert(path@.subrange(0, i + 1).last() == c);
        assert(before.push(piece).last() == piece);
        if c == '/' {
            done.push(last);
            last = Vec::new();
            assert(char_rows(done@) =~= before.push(piece));
        } else {
            last.push(c);
            assert(before.push(piece.push(c)) =~= before.push(piece).update(
                before.len() as int,
                piece.push(c),
            ));
        }
        i = i + 1;
    }
    assert(path@.subrange(0, i as int) =~= path@);
    let ghost before = char_rows(done@);
    let ghost piece = last@;
    done.push(last);
    assert(char_rows(done@) =~= before.push(piece));
    done
}

/// The components of a path: what stands between slashes, without empty pieces and
/// single dots.
pub fn path_to_string_list(path: &str) -> (r: Vec<String>)
    ensures
        texts(r@) == components(path@),
{
    let chars = chars_of(path);
    let pieces = split_path(chars.as_slice());
    let mut r: Vec<String> = Vec::new();
    let mut i: usize = 0;
    assert(texts(r@) =~= named(char_rows(pieces@).subrange(0, 0)));
    while i < pieces.len()
        invariant
            i <= pieces@.len(),
            texts(r@) == named(char_rows(pieces@).subrange(0, i as int)),
        decreases pieces@.len() - i,
    {
        let ghost rows = char_rows(pieces@);
        let ghost before = texts(r@);
        assert(rows.subrange(0, i + 1).drop_last() =~= rows.subrange(0, i as int));
        assert(rows.subrange(0, i + 1).last() == pieces@[i as int]@);
        let piece = &pieces[i];
        if piece.len() > 0 && !(piece.len() == 1 && piece[0] == '.') {
            r.push(string_of(piece.as_slice()));
            assert(texts(r@) =~= before.push(pieces@[i as int]@));
        }
        i = i + 1;
    }
    assert(char_rows(pieces@).subrange(0, i as int) =~= char_rows(pieces@));
    r
}

/// True if `s` is the text `..`.
pub fn is_parent_name(s: &str) -> (r: bool)
    ensures
        r == is_dot_dot(s@),
{
    let c = chars_of(s);
    c.len() == 2 && c[0] == '.' && c[1] == '.'
}

/// True if `s` is the text `.`.
pub fn is_current_name(s: &str) -> (r: bool)
    ensures
        r == is_dot(s@),
{
    let c = chars_of(s);
    c.len() == 1 && c[0] == '.'
}

/// Drops each `.` and lets each `..` undo the part before it.
pub fn normalize_components(parts: &[String]) -> (r: Vec<String>)
    ensures
        texts(r@) == normalized(texts(parts@)),
{
    let mut stack: Vec<String> = Vec::new();
    let mut i: usize = 0;
    assert(texts(stack@) =~= normalized(texts(parts@).subrange(0, 0)));
    while i < parts.len()
        invariant
            i <= parts@.len(),
            texts(stack@) == normalized(texts(parts@).subrange(0, i as int)),
        decreases parts@.len() - i,
    {
        let ghost rows = texts(parts@);
        let ghost before = texts(stack@);
        assert(rows.subrange(0, i + 1).drop_last() =~= rows.subrange(0, i as int));
        assert(rows.subrange(0, i + 1).last() == parts@[i as int]@);
        if is_current_name(parts[i].as_str()) {
        } else if is_parent_name(parts[i].as_str()) {
            let _ = stack.pop();
            assert(texts(stack@) =~= if before.len() == 0 {
                before
            } else {
                before.drop_last()
            });
        } else {
            stack.push(parts[i].clone());
            assert(texts(stack@) =~= before.push(parts@[i as int]@));
        }
        i = i + 1;
    }
    assert(texts(parts@).subrange(0, i as int) =~= texts(parts@));
    stack
}

/// The normalized absolute path through the components `ss`.
pub fn join_absolute(ss: &[String]) -> (r: String)
    ensures
        r@ == absolute(texts(ss@)),
{
    let parts = normalize_components(ss);
    let mut out = String::new();
    if parts.len() == 0 {
        out.push('/');
        assert(out@ =~= seq!['/']);
        return out;
    }
    let mut i: usize = 0;
    assert(out@ =~= slashed(texts(parts@).subrange(0, 0)));
    while i < parts.len()
        invariant
            i <= parts@.len(),
            out@ == slashed(texts(parts@).subrange(0, i as int)),
        decreases parts@.len() - i,
    {
        let ghost rows = texts(parts@);
        assert(rows.subrange(0, i + 1).drop_last() =~= rows.subrange(0, i as int));
        assert(rows.subrange(0, i + 1).last() == parts@[i as int]@);
        out.push('/');
        out.append(parts[i].as_str());
        i = i + 1;
    }
    assert(texts(parts@).subrange(0, i as int) =~= texts(parts@));
    out
}

/// The absolute form of a path, with `.`, `..` and repeated slashes resolved.
pub fn normalize_path(path: &str) -> (r: String)
    ensures
        r@ == absolute(components(path@)),
{
    let parts = path_to_string_list(path);
    join_absolute(parts.as_slice())
}

/// The pieces of a path, with a leading slash or dot as a piece of its own.
pub fn path_parts(path: &str) -> (r: Vec<String>)
    ensures
        texts(r@) == full_parts(path@),
{
    let chars = chars_of(path);
    let pieces = split_path(chars.as_slice());
    let mut r: Vec<String> = Vec::new();
    let rooted = chars.len() > 0 && chars[0] == '/';
    assert(char_rows(pieces@)[0] == pieces@[0]@);
    if rooted {
        let mut s = String::new();
        s.push('/');
        assert(s@ =~= seq!['/']);
        r.push(s);
    } else if pieces[0].len() == 1 && pieces[0][0] == '.' {
        let mut s = String::new();
        s.push('.');
        assert(s@ =~= seq!['.']);
        r.push(s);
    }
    let ghost head = texts(r@);
    let mut list = path_to_string_list(path);
    let ghost tail = texts(list@);
    r.append(&mut list);
    assert(texts(r@) =~= head + tail);
    assert(texts(r@) =~= full_parts(path@));
    r
}

/// True if the pieces of `prefix` are the first pieces of `path`.
pub fn starts_with_path(path: &str, prefix: &str) -> (r: bool)
    ensures
        r == path_starts_with(path@, prefix@),
{
    let p = path_parts(path);
    let q = path_parts(prefix);
    let ghost pt = texts(p@);
    let ghost qt = texts(q@);
    if q.len() > p.len() {
        return false;
    }
    let mut i: usize = 0;
    while i < q.len()
        invariant
            i <= q@.len(),
            q@.len() <= p@.len(),
            pt == texts(p@),
            qt == texts(q@),
            pt == full_parts(path@),
            qt == full_parts(prefix@),
            forall|k: int| 0 <= k < i ==> pt[k] == qt[k],
        decreases q@.len() - i,
    {
        if p[i] != q[i] {
            assert(pt[i as int] != qt[i as int]);
            assert(!qt.is_prefix_of(pt)) by {
                if qt.is_prefix_of(pt) {
                    assert(pt.subrange(0, qt.len() as int)[i as int] == pt[i as int]);
                }
            }
            return false;
        }
        i = i + 1;
    }
    assert(pt.subrange(0, qt.len() as int) =~= qt);
    true
}

/// True if two paths have the same pieces.
pub fn equal_paths(a: &str, b: &str) -> (r: bool)
    ensures
        r == same_path(a@, b@),
{
    let ab = starts_with_path(a, b);
    let ba = starts_with_path(b, a);
    proof {
        let x = full_parts(a@);
        let y = full_parts(b@);
        if x.is_prefix_of(y) && y.is_prefix_of(x) {
            assert(x =~= y);
        }
        if x == y {
            assert(x.subrange(0, x.len() as int) =~= x);
        }
    }
    ab && ba
}

/// `SystemTime::now` as whole seconds since the start of 1970, by `duration_since`; zero if the
/// clock is set before that. Nothing is known of the time.
#[verifier::external_body]
pub fn utc_now_u64() -> u64 {
    match std::time::SystemTime::now().duration_since(std::time::UNIX_EPOCH) {
        Ok(d) => d.as_secs(),
        Err(_) => 0,
    }
}

/// The date and time of a number of seconds since the start of 1970, as `chrono` displays it.
pub uninterp spec fn chrono_display(seconds: i64) -> Option<Seq<char>>;

/// The date and time of a number of seconds since the start of 1970, as `chrono` formats it
/// without the zone.
pub uninterp spec fn chrono_plain(seconds: i64) -> Option<Seq<char>>;

/// The text of an optional string.
pub open spec fn opt_string(s: Option<String>) -> Option<Seq<char>> {
    match s {
        Some(t) => Some(t@),
        None => None,
    }
}

/// `chrono::DateTime::from_timestamp` for UTC, without fraction, and the `Display` of what it
/// gives: absent if the time is out of range, else a text that depends on the seconds alone.
#[verifier::external_body]
fn utc_display(seconds: i64) -> (r: Option<String>)
    ensures
        opt_string(r) == chrono_display(seconds),
{
    chrono::DateTime::<chrono::Utc>::from_timestamp(seconds, 0).map(|d| d.to_string())
}

/// `chrono::DateTime::from_timestamp` for UTC, without fraction, and what its `format` gives for
/// year, month, day, hour, minute and second: absent if the time is out of range, else a text
/// that depends on the seconds alone.
#[verifier::external_body]
fn utc_plain(seconds: i64) -> (r: Option<String>)
    ensures
        opt_string(r) == chrono_plain(seconds),
{
    chrono::DateTime::<chrono::Utc>::from_timestamp(seconds, 0).map(
        |d| d.format("%Y-%m-%d %H:%M:%S").to_string(),
    )
}

/// A time stamp as a signed number of seconds; stamps beyond the middle of their range are
/// negative.
#[verifier::truncate]
fn signed_seconds(timestamp: u64) -> (r: i64)
    ensures
        r == timestamp as i64,
{
    timestamp as i64
}

/// The date and time of a time stamp as text, with its zone.
pub fn u64_to_utc_datetime(timestamp: u64) -> (r: Option<String>)
    ensures
        opt_string(r) == chrono_display(timestamp as i64),
{
    utc_display(signed_seconds(timestamp))
}

/// The date and time of a time stamp as text, without its zone.
pub fn u64_to_plain_datetime(timestamp: u64) -> (r: Option<String>)
    ensures
        opt_string(r) == chrono_plain(timestamp as i64),
{
    utc_plain(signed_seconds(timestamp))
}

} // verus!
