//! Tokenisation of version strings into comparison keys, and the order on keys.
use vstd::prelude::*;
use core::cmp::Ordering;

verus! {

/// A component of a version key, as a mathematical value.
pub enum Token {
    Num(u64),
    Word(Seq<char>),
}

/// A component of a version key: a run of ASCII digits read as a number
/// (saturating at `u64::MAX`), or any other run of alphanumeric characters.
#[derive(Debug, PartialEq, Eq)]
pub enum VersionComponent {
    Numeric(u64),
    Lexical(Vec<char>),
}

impl View for VersionComponent {
    type V = Token;

    open spec fn view(&self) -> Token {
        match self {
            VersionComponent::Numeric(n) => Token::Num(*n),
            VersionComponent::Lexical(w) => Token::Word(w@),
        }
    }
}

pub open spec fn ascii_alnum(c: char) -> bool {
    let n = c as int;
    (48 <= n && n <= 57) || (65 <= n && n <= 90) || (97 <= n && n <= 122)
}

/// Whether a character outside ASCII is alphabetic or numeric in Unicode's sense.
pub uninterp spec fn unicode_alphanumeric(c: char) -> bool;

pub open spec fn is_alnum(c: char) -> bool {
    if (c as int) < 128 {
        ascii_alnum(c)
    } else {
        unicode_alphanumeric(c)
    }
}

/// Relies on `char::is_alphanumeric`: on ASCII it holds exactly of digits and
/// letters; beyond ASCII it follows Unicode's Alphabetic and Numeric properties.
#[verifier::external_body]
fn is_alphanumeric(c: char) -> (r: bool)
    ensures
        (c as int) < 128 ==> r == ascii_alnum(c),
        (c as int) >= 128 ==> r == unicode_alphanumeric(c),
{
    c.is_alphanumeric()
}

/// Scans `s` left to right: the runs of alphanumeric characters closed so far,
/// and the run still open at the end.
pub open spec fn split_state(s: Seq<char>) -> (Seq<Seq<char>>, Seq<char>)
    decreases s.len(),
{
    if s.len() == 0 {
        (seq![], seq![])
    } else {
        let (done, cur) = split_state(s.drop_last());
        let c = s.last();
        if is_alnum(c) {
            (done, cur.push(c))
        } else if cur.len() > 0 {
            (done.push(cur), seq![])
        } else {
            (done, seq![])
        }
    }
}

/// The maximal non-empty runs of alphanumeric characters of `s`, in order.
pub open spec fn words(s: Seq<char>) -> Seq<Seq<char>> {
    let (done, cur) = split_state(s);
    if cur.len() > 0 {
        done.push(cur)
    } else {
        done
    }
}

/// `s` without one leading `v`, if it has one.
pub open spec fn strip_v(s: Seq<char>) -> Seq<char> {
    if s.len() > 0 && s[0] == 'v' {
        s.drop_first()
    } else {
        s
    }
}

pub open spec fn is_digit(c: char) -> bool {
    48 <= (c as int) && (c as int) <= 57
}

pub open spec fn all_digits(w: Seq<char>) -> bool {
    forall|i: int| 0 <= i < w.len() ==> is_digit(#[trigger] w[i])
}

/// The number that a run of decimal digits denotes.
pub open spec fn digits_value(w: Seq<char>) -> nat
    decreases w.len(),
{
    if w.len() == 0 {
        0
    } else {
        (digits_value(w.drop_last()) * 10 + (w.last() as int - 48)) as nat
    }
}

pub open spec fn saturate(n: nat) -> u64 {
    if n <= u64::MAX {
        n as u64
    } else {
        u64::MAX
    }
}

pub open spec fn token_of(w: Seq<char>) -> Token {
    if all_digits(w) {
        Token::Num(saturate(digits_value(w)))
    } else {
        Token::Word(w)
    }
}

/// The comparison key of a version string.
pub open spec fn version_key(s: Seq<char>) -> Seq<Token> {
    words(strip_v(s)).map_values(|w: Seq<char>| token_of(w))
}

pub open spec fn key_view(k: Seq<VersionComponent>) -> Seq<Token> {
    k.map_values(|c: VersionComponent| c@)
}

/// Reads a run of characters as a component.
pub fn make_component(w: Vec<char>) -> (r: VersionComponent)
    ensures
        r@ == token_of(w@),
{
    let n = w.len();
    let mut i: usize = 0;
    while i < n
        invariant
            n == w@.len(),
            i <= n,
            all_digits(w@.take(i as int)),
        decreases n - i,
    {
        let c = w[i];
        if !('0' <= c && c <= '9') {
            assert(!is_digit(w@[i as int]));
            return VersionComponent::Lexical(w);
        }
        assert(w@.take(i + 1) =~= w@.take(i as int).push(c));
        i = i + 1;
    }
    assert(w@.take(n as int) =~= w@);
    let mut acc: u64 = 0;
    let mut j: usize = 0;
    while j < n
        invariant
            n == w@.len(),
            j <= n,
            all_digits(w@),
            acc == saturate(digits_value(w@.take(j as int))),
        decreases n - j,
    {
        let d = (w[j] as u32 - 48) as u64;
        let ghost prev = digits_value(w@.take(j as int));
        assert(w@.take(j + 1).drop_last() =~= w@.take(j as int));
        assert(is_digit(w@[j as int]));
        assert(digits_value(w@.take(j + 1)) == prev * 10 + d);
        if acc == u64::MAX {
            assert(prev >= u64::MAX);
            assert(prev * 10 + d >= u64::MAX) by (nonlinear_arith)
                requires prev >= u64::MAX, d >= 0;
            acc = u64::MAX;
        } else {
            assert(prev == acc);
            match acc.checked_mul(10) {
                Some(m) => match m.checked_add(d) {
                    Some(s) => {
                        acc = s;
                    },
                    None => {
                        acc = u64::MAX;
                    },
                },
                None => {
                    acc = u64::MAX;
                },
            }
        }
        j = j + 1;
    }
    assert(w@.take(n as int) =~= w@);
    VersionComponent::Numeric(acc)
}


/// The characters of `s`, in order.
pub fn chars_of(s: &str) -> (r: Vec<char>)
    ensures
        r@ == s@,
{
    let n = s.unicode_len();
    let mut out: Vec<char> = Vec::new();
    let mut i: usize = 0;
    while i < n
        invariant
            n == s@.len(),
            i <= n,
            out@ == s@.take(i as int),
        decreases n - i,
    {
        out.push(s.get_char(i));
        assert(s@.take(i + 1) =~= s@.take(i as int).push(s@[i as int]));
        i = i + 1;
    }
    assert(s@.take(n as int) =~= s@);
    out
}

/// Tokenises a version string: one leading `v` is dropped, the rest is cut at
/// every character that is not alphanumeric, empty pieces are discarded, and
/// each piece becomes a component.
pub fn parse_version(v: &str) -> (r: Vec<VersionComponent>)
    ensures
        key_view(r@) == version_key(v@),
{
    let n = v.unicode_len();
    let start: usize = if n > 0 && v.get_char(0) == 'v' {
        1
    } else {
        0
    };
    let ghost body = strip_v(v@);
    assert(body =~= v@.skip(start as int));
    let mut out: Vec<VersionComponent> = Vec::new();
    let mut cur: Vec<char> = Vec::new();
    let mut i: usize = start;
    while i < n
        invariant
            n == v@.len(),
            start <= i <= n,
            body == v@.skip(start as int),
            key_view(out@) == split_state(body.take(i - start)).0.map_values(
                |w: Seq<char>| token_of(w),
            ),
            cur@ == split_state(body.take(i - start)).1,
        decreases n - i,
    {
        let c = v.get_char(i);
        let ghost pre = body.take(i - start);
        assert(body.take(i + 1 - start).drop_last() =~= pre);
        assert(body.take(i + 1 - start).last() == c);
        if is_alphanumeric(c) {
            cur.push(c);
        } else if cur.len() > 0 {
            let w = cur;
            cur = Vec::new();
            let t = make_component(w);
            let ghost old_out = out@;
            out.push(t);
            assert(out@ =~= old_out.push(t));
            assert(key_view(out@) =~= key_view(old_out).push(t@));
            assert(split_state(pre).0.push(split_state(pre).1).map_values(|w: Seq<char>| token_of(w))
                =~= split_state(pre).0.map_values(|w: Seq<char>| token_of(w)).push(token_of(split_state(pre).1)));
            assert(key_view(out@) =~= split_state(body.take(i + 1 - start)).0.map_values(
                |w: Seq<char>| token_of(w),
            ));
        }
        assert(cur@ =~= split_state(body.take(i + 1 - start)).1);
        i = i + 1;
    }
    assert(body.take(n - start) =~= body);
    if cur.len() > 0 {
        let ghost last = cur@;
        let t = make_component(cur);
        let ghost old_out = out@;
        out.push(t);
        assert(out@ =~= old_out.push(t));
        assert(key_view(out@) =~= key_view(old_out).push(t@));
        assert(split_state(body).0.push(last).map_values(|w: Seq<char>| token_of(w))
            =~= split_state(body).0.map_values(|w: Seq<char>| token_of(w)).push(token_of(last)));
    }
    assert(key_view(out@) =~= version_key(v@));
    out
}


/// Code-point order on texts; a proper prefix comes first.
pub open spec fn compare_text(a: Seq<char>, b: Seq<char>) -> Ordering
    decreases a.len(),
{
    if a.len() == 0 {
        if b.len() == 0 {
            Ordering::Equal
        } else {
            Ordering::Less
        }
    } else if b.len() == 0 {
        Ordering::Greater
    } else if (a[0] as int) < (b[0] as int) {
        Ordering::Less
    } else if (a[0] as int) > (b[0] as int) {
        Ordering::Greater
    } else {
        compare_text(a.drop_first(), b.drop_first())
    }
}

/// Numbers by value, words by code points, and a number above any word.
pub open spec fn compare_tokens(a: Token, b: Token) -> Ordering {
    match (a, b) {
        (Token::Num(x), Token::Num(y)) => if x < y {
            Ordering::Less
        } else if x > y {
            Ordering::Greater
        } else {
            Ordering::Equal
        },
        (Token::Num(_), Token::Word(_)) => Ordering::Greater,
        (Token::Word(_), Token::Num(_)) => Ordering::Less,
        (Token::Word(x), Token::Word(y)) => compare_text(x, y),
    }
}

/// Component by component; where one key is a proper prefix of the other, it
/// is the older one.
pub open spec fn compare_keys(a: Seq<Token>, b: Seq<Token>) -> Ordering
    decreases a.len(),
{
    if a.len() == 0 {
        if b.len() == 0 {
            Ordering::Equal
        } else {
            Ordering::Less
        }
    } else if b.len() == 0 {
        Ordering::Greater
    } else if compare_tokens(a[0], b[0]) != Ordering::Equal {
        compare_tokens(a[0], b[0])
    } else {
        compare_keys(a.drop_first(), b.drop_first())
    }
}

/// Compares two texts by code points.
pub fn compare_chars(a: &Vec<char>, b: &Vec<char>) -> (r: Ordering)
    ensures
        r == compare_text(a@, b@),
{
    let mut i: usize = 0;
    assert(a@.skip(0) =~= a@);
    assert(b@.skip(0) =~= b@);
    while i < a.len() && i < b.len()
        invariant
            i <= a@.len(),
            i <= b@.len(),
            compare_text(a@, b@) == compare_text(a@.skip(i as int), b@.skip(i as int)),
        decreases a@.len() - i,
    {
        let x = a[i];
        let y = b[i];
        assert(a@.skip(i as int)[0] == a@[i as int]);
        assert(b@.skip(i as int)[0] == b@[i as int]);
        if x < y {
            return Ordering::Less;
        } else if x > y {
            return Ordering::Greater;
        }
        assert(a@.skip(i as int).drop_first() =~= a@.skip(i + 1));
        assert(b@.skip(i as int).drop_first() =~= b@.skip(i + 1));
        i = i + 1;
    }
    if i < a.len() {
        Ordering::Greater
    } else if i < b.len() {
        Ordering::Less
    } else {
        Ordering::Equal
    }
}

fn compare_components(a: &VersionComponent, b: &VersionComponent) -> (r: Ordering)
    ensures
        r == compare_tokens(a@, b@),
{
    match (a, b) {
        (VersionComponent::Numeric(x), VersionComponent::Numeric(y)) => {
            if *x < *y {
                Ordering::Less
            } else if *x > *y {
                Ordering::Greater
            } else {
                Ordering::Equal
            }
        },
        (VersionComponent::Numeric(_), VersionComponent::Lexical(_)) => Ordering::Greater,
        (VersionComponent::Lexical(_), VersionComponent::Numeric(_)) => Ordering::Less,
        (VersionComponent::Lexical(x), VersionComponent::Lexical(y)) => compare_chars(x, y),
    }
}

/// Compares two keys made by `parse_version`.
pub fn compare_versions(a: &Vec<VersionComponent>, b: &Vec<VersionComponent>) -> (r: Ordering)
    ensures
        r == compare_keys(key_view(a@), key_view(b@)),
{
    let ghost ka = key_view(a@);
    let ghost kb = key_view(b@);
    let mut i: usize = 0;
    assert(ka.skip(0) =~= ka);
    assert(kb.skip(0) =~= kb);
    while i < a.len() && i < b.len()
        invariant
            i <= a@.len(),
            i <= b@.len(),
            ka.len() == a@.len(),
            kb.len() == b@.len(),
            ka == key_view(a@),
            kb == key_view(b@),
            compare_keys(ka, kb) == compare_keys(ka.skip(i as int), kb.skip(i as int)),
        decreases a@.len() - i,
    {
        let c = compare_components(&a[i], &b[i]);
        assert(ka.skip(i as int)[0] == a@[i as int]@);
        assert(kb.skip(i as int)[0] == b@[i as int]@);
        match c {
            Ordering::Equal => {},
            _ => {
                return c;
            },
        }
        assert(ka.skip(i as int).drop_first() =~= ka.skip(i + 1));
        assert(kb.skip(i as int).drop_first() =~= kb.skip(i + 1));
        i = i + 1;
    }
    if i < a.len() {
        Ordering::Greater
    } else if i < b.len() {
        Ordering::Less
    } else {
        Ordering::Equal
    }
}


proof fn lemma_text_antisymmetric(a: Seq<char>, b: Seq<char>)
    ensures
        compare_text(a, b) == Ordering::Equal ==> a == b,
        (compare_text(a, b) == Ordering::Less) == (compare_text(b, a) == Ordering::Greater),
    decreases a.len(),
{
    if a.len() > 0 && b.len() > 0 && (a[0] as int) == (b[0] as int) {
        lemma_text_antisymmetric(a.drop_first(), b.drop_first());
        if compare_text(a, b) == Ordering::Equal {
            assert(a =~= seq![a[0]] + a.drop_first());
            assert(b =~= seq![b[0]] + b.drop_first());
        }
    }
}

proof fn lemma_text_transitive(a: Seq<char>, b: Seq<char>, c: Seq<char>)
    requires
        compare_text(a, b) == Ordering::Less,
        compare_text(b, c) == Ordering::Less,
    ensures
        compare_text(a, c) == Ordering::Less,
    decreases a.len(),
{
    if a.len() > 0 && (a[0] as int) == (b[0] as int) && (b[0] as int) == (c[0] as int) {
        lemma_text_transitive(a.drop_first(), b.drop_first(), c.drop_first());
    }
}

proof fn lemma_tokens_order(a: Token, b: Token, c: Token)
    ensures
        compare_tokens(a, b) == Ordering::Equal ==> a == b,
        (compare_tokens(a, b) == Ordering::Less) == (compare_tokens(b, a) == Ordering::Greater),
        compare_tokens(a, b) == Ordering::Less && compare_tokens(b, c) == Ordering::Less
            ==> compare_tokens(a, c) == Ordering::Less,
{
    match (a, b, c) {
        (Token::Word(x), Token::Word(y), Token::Word(z)) => {
            lemma_text_antisymmetric(x, y);
            if compare_text(x, y) == Ordering::Less && compare_text(y, z) == Ordering::Less {
                lemma_text_transitive(x, y, z);
            }
        },
        (Token::Word(x), Token::Word(y), _) => {
            lemma_text_antisymmetric(x, y);
        },
        _ => {},
    }
}

/// Equal keys are the same key, and `Less` one way is `Greater` the other.
pub proof fn lemma_keys_antisymmetric(a: Seq<Token>, b: Seq<Token>)
    ensures
        compare_keys(a, b) == Ordering::Equal ==> a == b,
        (compare_keys(a, b) == Ordering::Less) == (compare_keys(b, a) == Ordering::Greater),
    decreases a.len(),
{
    if a.len() > 0 && b.len() > 0 {
        lemma_tokens_order(a[0], b[0], b[0]);
        lemma_tokens_order(b[0], a[0], a[0]);
        if compare_tokens(a[0], b[0]) == Ordering::Equal {
            lemma_keys_antisymmetric(a.drop_first(), b.drop_first());
            if compare_keys(a, b) == Ordering::Equal {
                assert(a =~= seq![a[0]] + a.drop_first());
                assert(b =~= seq![b[0]] + b.drop_first());
            }
        }
    }
}

/// The order on keys is transitive.
pub proof fn lemma_keys_transitive(a: Seq<Token>, b: Seq<Token>, c: Seq<Token>)
    requires
        compare_keys(a, b) == Ordering::Less,
        compare_keys(b, c) == Ordering::Less,
    ensures
        compare_keys(a, c) == Ordering::Less,
    decreases a.len(),
{
    if a.len() > 0 {
        lemma_tokens_order(a[0], b[0], c[0]);
        lemma_tokens_order(b[0], c[0], c[0]);
        if compare_tokens(a[0], b[0]) == Ordering::Equal && compare_tokens(b[0], c[0])
            == Ordering::Equal {
            lemma_keys_transitive(a.drop_first(), b.drop_first(), c.drop_first());
        }
    }
}

/// A key is never older than itself.
pub proof fn lemma_keys_reflexive(a: Seq<Token>)
    ensures
        compare_keys(a, a) == Ordering::Equal,
    decreases a.len(),
{
    if a.len() > 0 {
        lemma_tokens_order(a[0], a[0], a[0]);
        assert(compare_tokens(a[0], a[0]) == Ordering::Equal) by {
            match a[0] {
                Token::Word(x) => lemma_text_reflexive(x),
                _ => {},
            }
        }
        lemma_keys_reflexive(a.drop_first());
    }
}

proof fn lemma_text_reflexive(a: Seq<char>)
    ensures
        compare_text(a, a) == Ordering::Equal,
    decreases a.len(),
{
    if a.len() > 0 {
        lemma_text_reflexive(a.drop_first());
    }
}


/// Pieces joined with `.` between them.
pub open spec fn dotted(parts: Seq<Seq<char>>) -> Seq<char>
    decreases parts.len(),
{
    if parts.len() == 0 {
        seq![]
    } else if parts.len() == 1 {
        parts[0]
    } else {
        dotted(parts.drop_last()) + seq!['.'] + parts.last()
    }
}

/// Every piece is a non-empty run of decimal digits whose value fits in `u64`.
pub open spec fn numeric_parts(parts: Seq<Seq<char>>) -> bool {
    forall|i: int|
        0 <= i < parts.len() ==> (#[trigger] parts[i]).len() > 0 && all_digits(parts[i])
            && digits_value(parts[i]) <= u64::MAX
}

pub open spec fn part_values(parts: Seq<Seq<char>>) -> Seq<nat> {
    parts.map_values(|w: Seq<char>| digits_value(w))
}

/// Lexicographic order on sequences of numbers; a proper prefix comes first.
pub open spec fn compare_numbers(a: Seq<nat>, b: Seq<nat>) -> Ordering
    decreases a.len(),
{
    if a.len() == 0 {
        if b.len() == 0 {
            Ordering::Equal
        } else {
            Ordering::Less
        }
    } else if b.len() == 0 {
        Ordering::Greater
    } else if a[0] < b[0] {
        Ordering::Less
    } else if a[0] > b[0] {
        Ordering::Greater
    } else {
        compare_numbers(a.drop_first(), b.drop_first())
    }
}

proof fn lemma_split_alnum_run(x: Seq<char>, w: Seq<char>)
    requires
        forall|i: int| 0 <= i < w.len() ==> is_alnum(#[trigger] w[i]),
    ensures
        split_state(x + w) == (split_state(x).0, split_state(x).1 + w),
    decreases w.len(),
{
    if w.len() == 0 {
        assert(x + w =~= x);
        assert(split_state(x).1 + w =~= split_state(x).1);
    } else {
        let w0 = w.drop_last();
        lemma_split_alnum_run(x, w0);
        assert((x + w).drop_last() =~= x + w0);
        assert(split_state(x).1 + w0 + seq![w.last()] =~= split_state(x).1 + w);
        assert(split_state(x).1 + w0.push(w.last()) =~= split_state(x).1 + w);
        assert((split_state(x).1 + w0).push(w.last()) =~= split_state(x).1 + w);
    }
}

proof fn lemma_split_dotted(parts: Seq<Seq<char>>)
    requires
        parts.len() > 0,
        numeric_parts(parts),
    ensures
        split_state(dotted(parts)) == (parts.drop_last(), parts.last()),
    decreases parts.len(),
{
    let last = parts.last();
    assert(parts[parts.len() - 1] == last);
    assert forall|i: int| 0 <= i < last.len() implies is_alnum(#[trigger] last[i]) by {
        assert(is_digit(last[i]));
    }
    if parts.len() == 1 {
        lemma_split_alnum_run(seq![], last);
        assert(Seq::<char>::empty() + last =~= last);
        assert(Seq::<char>::empty() + last =~= dotted(parts));
        assert(parts.drop_last() =~= Seq::<Seq<char>>::empty());
    } else {
        let front = parts.drop_last();
        assert forall|i: int| 0 <= i < front.len() implies (#[trigger] front[i]).len() > 0
            && all_digits(front[i]) && digits_value(front[i]) <= u64::MAX by {
            assert(front[i] == parts[i]);
        }
        lemma_split_dotted(front);
        let head = dotted(front) + seq!['.'];
        assert(head.drop_last() =~= dotted(front));
        assert(front.drop_last().push(front.last()) =~= front);
        lemma_split_alnum_run(head, last);
    }
}

/// Where every component is a number that fits in `u64` and the components
/// are joined by dots, versions order as their sequences of numbers do.
pub proof fn lemma_numeric_versions_order_by_value(pa: Seq<Seq<char>>, pb: Seq<Seq<char>>)
    requires
        numeric_parts(pa),
        numeric_parts(pb),
    ensures
        compare_keys(version_key(dotted(pa)), version_key(dotted(pb))) == compare_numbers(
            part_values(pa),
            part_values(pb),
        ),
{
    lemma_numeric_key(pa);
    lemma_numeric_key(pb);
    lemma_compare_numeric_keys(part_values(pa), part_values(pb));
}

pub open spec fn num_tokens(a: Seq<nat>) -> Seq<Token> {
    a.map_values(|n: nat| Token::Num(n as u64))
}

proof fn lemma_numeric_key(parts: Seq<Seq<char>>)
    requires
        numeric_parts(parts),
    ensures
        version_key(dotted(parts)) == num_tokens(part_values(parts)),
        forall|i: int| 0 <= i < parts.len() ==> #[trigger] part_values(parts)[i] <= u64::MAX,
{
    if parts.len() > 0 {
        lemma_split_dotted(parts);
        let d = dotted(parts);
        assert(parts[0].len() > 0 && all_digits(parts[0]));
        assert(d.len() > 0 && d[0] != 'v') by {
            lemma_dotted_starts_with_first(parts);
            assert(is_digit(parts[0][0]));
        }
        assert(strip_v(d) == d);
        assert(parts.drop_last().push(parts.last()) =~= parts);
        assert(words(d) == parts);
    } else {
        assert(words(strip_v(dotted(parts))) =~= Seq::<Seq<char>>::empty());
    }
    assert(version_key(dotted(parts)) =~= num_tokens(part_values(parts)));
}

proof fn lemma_dotted_starts_with_first(parts: Seq<Seq<char>>)
    requires
        parts.len() > 0,
        parts[0].len() > 0,
    ensures
        dotted(parts).len() > 0,
        dotted(parts)[0] == parts[0][0],
    decreases parts.len(),
{
    if parts.len() > 1 {
        assert(parts.drop_last()[0] == parts[0]);
        lemma_dotted_starts_with_first(parts.drop_last());
    }
}

proof fn lemma_compare_numeric_keys(a: Seq<nat>, b: Seq<nat>)
    requires
        forall|i: int| 0 <= i < a.len() ==> #[trigger] a[i] <= u64::MAX,
        forall|i: int| 0 <= i < b.len() ==> #[trigger] b[i] <= u64::MAX,
    ensures
        compare_keys(num_tokens(a), num_tokens(b)) == compare_numbers(a, b),
    decreases a.len(),
{
    if a.len() > 0 && b.len() > 0 {
        assert(num_tokens(a).drop_first() =~= num_tokens(a.drop_first()));
        assert(num_tokens(b).drop_first() =~= num_tokens(b.drop_first()));
        assert(a[0] <= u64::MAX && b[0] <= u64::MAX);
        lemma_compare_numeric_keys(a.drop_first(), b.drop_first());
    }
}

/// One leading `v` changes nothing in how a version orders.
pub proof fn lemma_leading_v_ignored(s: Seq<char>, other: Seq<char>)
    requires
        !(s.len() > 0 && s[0] == 'v'),
    ensures
        version_key(seq!['v'] + s) == version_key(s),
        compare_keys(version_key(seq!['v'] + s), version_key(other)) == compare_keys(
            version_key(s),
            version_key(other),
        ),
{
    assert((seq!['v'] + s).drop_first() =~= s);
}


/// A key that is a proper prefix of another is the older of the two.
pub proof fn lemma_proper_prefix_older(a: Seq<Token>, rest: Seq<Token>)
    requires
        rest.len() > 0,
    ensures
        compare_keys(a, a + rest) == Ordering::Less,
        compare_keys(a + rest, a) == Ordering::Greater,
    decreases a.len(),
{
    if a.len() > 0 {
        lemma_tokens_order(a[0], a[0], a[0]);
        assert(compare_tokens(a[0], a[0]) == Ordering::Equal) by {
            match a[0] {
                Token::Word(x) => lemma_text_reflexive(x),
                _ => {},
            }
        }
        assert((a + rest)[0] == a[0]);
        assert((a + rest).drop_first() =~= a.drop_first() + rest);
        lemma_proper_prefix_older(a.drop_first(), rest);
    } else {
        assert(a + rest =~= rest);
    }
}

} // verus!
