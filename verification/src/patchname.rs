//! Validated textual names for patches.
//!
//! A patch name is a non-empty string of letters, digits and the separators
//! `-`, `_` and `.`, not starting with a dot, of bounded length. Reserved
//! words of the underlying store (revision syntax such as `@{...}` or
//! `{base}`) are excluded by the character set itself. Names are
//! case-sensitive.
//!
//! Besides parsing, this module offers [`PatchName::make`], which sanitizes
//! arbitrary text into a valid name, and [`PatchName::uniquify`], which
//! resolves collisions against a set of existing names by appending a
//! numeric suffix.

use vstd::assert_by_contradiction;
use vstd::prelude::*;
use vstd::string::StrSliceExecFns;
use vstd::string::StringExecFns;

use crate::error::Error;

verus! {

/// Largest number of characters in a patch name.
pub const NAME_LEN_MAX: usize = 100;

/// The characters a patch name may consist of.
pub open spec fn is_name_char(c: char) -> bool {
    ||| 'a' as u32 <= c as u32 && c as u32 <= 'z' as u32
    ||| 'A' as u32 <= c as u32 && c as u32 <= 'Z' as u32
    ||| '0' as u32 <= c as u32 && c as u32 <= '9' as u32
    ||| c == '-'
    ||| c == '_'
    ||| c == '.'
}

/// The patch-name grammar: non-empty, bounded, name characters only, and
/// no leading dot.
pub open spec fn valid_name(s: Seq<char>) -> bool {
    &&& 1 <= s.len() <= NAME_LEN_MAX
    &&& (forall|i: int| 0 <= i < s.len() ==> is_name_char(#[trigger] s[i]))
    &&& s[0] != '.'
}

/// What parsing a candidate name yields: the same character sequence when
/// it satisfies the grammar, nothing otherwise.
pub open spec fn spec_parse(s: Seq<char>) -> Option<Seq<char>> {
    if valid_name(s) {
        Some(s)
    } else {
        None
    }
}

/// A validated patch name. Every value of this type satisfies
/// [`valid_name`].
#[derive(Debug)]
pub struct PatchName {
    name: String,
}

impl View for PatchName {
    type V = Seq<char>;

    closed spec fn view(&self) -> Seq<char> {
        self.name@
    }
}

impl PartialEq for PatchName {
    fn eq(&self, other: &PatchName) -> (r: bool) {
        self.name.eq(&other.name)
    }
}

impl vstd::std_specs::cmp::PartialEqSpecImpl for PatchName {
    open spec fn obeys_eq_spec() -> bool {
        true
    }

    open spec fn eq_spec(&self, other: &PatchName) -> bool {
        self@ == other@
    }
}

/// The views of a sequence of patch names.
pub open spec fn names_of(s: Seq<PatchName>) -> Seq<Seq<char>> {
    s.map_values(|p: PatchName| p@)
}

impl PatchName {
    /// Every patch name in existence satisfies the grammar.
    #[verifier::type_invariant]
    pub open spec fn inv(self) -> bool {
        valid_name(self@)
    }

    /// Parse a candidate string against the patch-name grammar.
    pub fn parse(s: &str) -> (r: Result<PatchName, Error>)
        ensures
            match r {
                Ok(p) => spec_parse(s@) == Some(p@) && p@ == s@,
                Err(e) => {
                    &&& spec_parse(s@) is None
                    &&& e matches Error::InvalidPatchName(t) && t@ == s@
                },
            },
    {
        let n = s.unicode_len();
        if n == 0 || n > NAME_LEN_MAX {
            return Err(Error::InvalidPatchName(s.to_owned()));
        }
        if s.get_char(0) == '.' {
            return Err(Error::InvalidPatchName(s.to_owned()));
        }
        let mut i: usize = 0;
        while i < n
            invariant
                n == s@.len(),
                i <= n,
                forall|j: int| 0 <= j < i ==> is_name_char(#[trigger] s@[j]),
            decreases n - i,
        {
            if !name_char(s.get_char(i)) {
                return Err(Error::InvalidPatchName(s.to_owned()));
            }
            i += 1;
        }
        Ok(PatchName { name: s.to_owned() })
    }

    /// The name as a string slice.
    pub fn as_str(&self) -> (r: &str)
        ensures
            r@ == self@,
    {
        self.name.as_str()
    }

    /// An owned copy of the name's text.
    pub fn to_text(&self) -> (r: String)
        ensures
            r@ == self@,
    {
        self.name.clone()
    }

    /// A copy of the name.
    pub fn duplicate(&self) -> (r: PatchName)
        ensures
            r@ == self@,
    {
        proof {
            use_type_invariant(self);
        }
        PatchName { name: self.name.clone() }
    }

    /// Whether two names spell the same text.
    pub fn same_as(&self, other: &PatchName) -> (r: bool)
        ensures
            r == (self@ == other@),
    {
        self.name.eq(&other.name)
    }
}

/// Law: parsing a formatted patch name yields the very same name. The text
/// of a `PatchName` satisfies the grammar (its type invariant, which
/// `as_str` and `to_text` hand out unchanged), and on a valid text
/// `spec_parse` is the identity; by `parse`'s contract, `parse(p.as_str())`
/// therefore returns `Ok` of a name whose view equals `p@`.
pub proof fn lemma_parse_format_round_trip(s: Seq<char>)
    requires
        valid_name(s),
    ensures
        spec_parse(s) == Some(s),
{
}

/// Characters kept as they are by sanitization; everything else becomes a
/// dash. Dots survive only when the caller allows them.
pub open spec fn keep_char(c: char, allow_dots: bool) -> bool {
    is_name_char(c) && (allow_dots || c != '.')
}

/// Sanitization, first stage: disallowed characters become dashes.
pub open spec fn dash_disallowed(s: Seq<char>, allow_dots: bool) -> Seq<char> {
    Seq::new(s.len(), |i: int| if keep_char(s[i], allow_dots) { s[i] } else { '-' })
}

/// Sanitization, second stage: runs of dashes collapse to a single dash.
pub open spec fn collapse_dashes(s: Seq<char>) -> Seq<char>
    decreases s.len(),
{
    if s.len() == 0 {
        Seq::empty()
    } else {
        let rest = collapse_dashes(s.drop_last());
        if s.last() == '-' && rest.len() > 0 && rest[rest.len() - 1] == '-' {
            rest
        } else {
            rest.push(s.last())
        }
    }
}

/// A character that may not begin a name and is trimmed from the front.
pub open spec fn is_trim_char(c: char) -> bool {
    c == '-' || c == '.'
}

/// Sanitization, third stage: leading dashes and dots are trimmed.
pub open spec fn trim_start_seps(s: Seq<char>) -> Seq<char>
    decreases s.len(),
{
    if s.len() > 0 && is_trim_char(s[0]) {
        trim_start_seps(s.drop_first())
    } else {
        s
    }
}

/// Sanitization, fourth stage: the text is clipped to the length bound.
pub open spec fn cap_len(s: Seq<char>, limit: nat) -> Seq<char> {
    if s.len() <= limit {
        s
    } else {
        s.take(limit as int)
    }
}

/// The name used when nothing of the desired text survives sanitization.
pub open spec fn default_name() -> Seq<char> {
    seq!['p', 'a', 't', 'c', 'h']
}

/// What sanitizing a desired name yields: disallowed characters become
/// dashes, runs of dashes collapse, separators are trimmed from the front,
/// the text is clipped to the caller's limit (never beyond the grammar's
/// own bound), and an empty remainder falls back to the default name.
pub open spec fn spec_make(s: Seq<char>, allow_dots: bool, len_limit: Option<usize>) -> Seq<
    char,
> {
    let limit: nat = match len_limit {
        Some(l) => if l < NAME_LEN_MAX {
            l as nat
        } else {
            NAME_LEN_MAX as nat
        },
        None => NAME_LEN_MAX as nat,
    };
    let t = cap_len(trim_start_seps(collapse_dashes(dash_disallowed(s, allow_dots))), limit);
    if t.len() == 0 {
        default_name()
    } else {
        t
    }
}

impl PatchName {
    /// Sanitize arbitrary desired text into a valid patch name: disallowed
    /// characters are replaced with dashes, runs of dashes collapse,
    /// leading separators are trimmed, and the result is clipped to
    /// `len_limit` (and always to the grammar's own bound). When nothing
    /// survives, the default name is used.
    pub fn make(desired: &str, allow_dots: bool, len_limit: Option<usize>) -> (r: PatchName)
        ensures
            r@ == spec_make(desired@, allow_dots, len_limit),
            valid_name(r@),
    {
        let n = desired.unicode_len();
        let mut mapped: Vec<char> = Vec::new();
        let mut i: usize = 0;
        while i < n
            invariant
                n == desired@.len(),
                i <= n,
                mapped@.len() == i,
                forall|j: int|
                    0 <= j < i ==> mapped@[j] == dash_disallowed(desired@, allow_dots)[j],
            decreases n - i,
        {
            let c = desired.get_char(i);
            if keep_char_exec(c, allow_dots) {
                mapped.push(c);
            } else {
                mapped.push('-');
            }
            i += 1;
        }
        assert(mapped@ =~= dash_disallowed(desired@, allow_dots));
        assert(forall|j: int| 0 <= j < mapped@.len() ==> is_name_char(#[trigger] mapped@[j]));

        let mut collapsed: Vec<char> = Vec::new();
        let mut i: usize = 0;
        while i < mapped.len()
            invariant
                i <= mapped@.len(),
                collapsed@ == collapse_dashes(mapped@.take(i as int)),
            decreases mapped@.len() - i,
        {
            let c = mapped[i];
            proof {
                assert(mapped@.take(i + 1).drop_last() =~= mapped@.take(i as int));
                assert(mapped@.take(i + 1).last() == mapped@[i as int]);
            }
            if !(c == '-' && collapsed.len() > 0 && collapsed[collapsed.len() - 1] == '-') {
                collapsed.push(c);
            }
            i += 1;
        }
        assert(mapped@.take(mapped@.len() as int) =~= mapped@);
        proof {
            lemma_collapse_preserves_chars(mapped@);
        }

        let mut start: usize = 0;
        while start < collapsed.len() && trim_char_exec(collapsed[start])
            invariant
                start <= collapsed@.len(),
                forall|j: int| 0 <= j < start ==> is_trim_char(#[trigger] collapsed@[j]),
            decreases collapsed@.len() - start,
        {
            start += 1;
        }
        proof {
            lemma_trim_skip(collapsed@, start as int);
        }
        let mut trimmed: Vec<char> = Vec::new();
        let mut j: usize = start;
        while j < collapsed.len()
            invariant
                start <= j <= collapsed@.len(),
                trimmed@ =~= collapsed@.subrange(start as int, j as int),
            decreases collapsed@.len() - j,
        {
            trimmed.push(collapsed[j]);
            j += 1;
        }
        assert(trimmed@ =~= collapsed@.skip(start as int));
        assert(trimmed@ == trim_start_seps(collapsed@));

        let limit: usize = match len_limit {
            Some(l) => if l < NAME_LEN_MAX {
                l
            } else {
                NAME_LEN_MAX
            },
            None => NAME_LEN_MAX,
        };
        if trimmed.len() > limit {
            trimmed.truncate(limit);
        }
        assert(trimmed@ == cap_len(trim_start_seps(collapse_dashes(dash_disallowed(desired@,
            allow_dots))), limit as nat));

        if trimmed.len() == 0 {
            let mut text = String::new();
            push_char(&mut text, 'p');
            push_char(&mut text, 'a');
            push_char(&mut text, 't');
            push_char(&mut text, 'c');
            push_char(&mut text, 'h');
            assert(text@ =~= default_name());
            PatchName { name: text }
        } else {
            let text = chars_to_string(&trimmed);
            PatchName { name: text }
        }
    }
}

/// Runs of dashes only ever shrink: collapsing keeps every character a
/// name character.
proof fn lemma_collapse_preserves_chars(s: Seq<char>)
    requires
        forall|i: int| 0 <= i < s.len() ==> is_name_char(#[trigger] s[i]),
    ensures
        forall|i: int|
            0 <= i < collapse_dashes(s).len() ==> is_name_char(#[trigger] collapse_dashes(s)[i]),
    decreases s.len(),
{
    if s.len() > 0 {
        assert(forall|i: int|
            0 <= i < s.drop_last().len() ==> is_name_char(#[trigger] s.drop_last()[i]));
        lemma_collapse_preserves_chars(s.drop_last());
        let rest = collapse_dashes(s.drop_last());
        if !(s.last() == '-' && rest.len() > 0 && rest[rest.len() - 1] == '-') {
            assert(is_name_char(s.last()));
            assert(forall|i: int|
                0 <= i < rest.push(s.last()).len() ==> is_name_char(
                    #[trigger] rest.push(s.last())[i],
                ));
        }
    }
}

/// Trimming separators from the front skips exactly the leading run of
/// separator characters.
proof fn lemma_trim_skip(s: Seq<char>, k: int)
    requires
        0 <= k <= s.len(),
        forall|j: int| 0 <= j < k ==> is_trim_char(#[trigger] s[j]),
        k == s.len() || !is_trim_char(s[k]),
    ensures
        trim_start_seps(s) == s.skip(k),
    decreases k,
{
    if k == 0 {
        assert(s.skip(0) =~= s);
    } else {
        assert(forall|j: int|
            0 <= j < k - 1 ==> is_trim_char(#[trigger] s.drop_first()[j]));
        lemma_trim_skip(s.drop_first(), k - 1);
        assert(s.drop_first().skip(k - 1) =~= s.skip(k));
    }
}

/// The digit character of a value below ten.
pub open spec fn digit_char(n: nat) -> char {
    if n == 0 {
        '0'
    } else if n == 1 {
        '1'
    } else if n == 2 {
        '2'
    } else if n == 3 {
        '3'
    } else if n == 4 {
        '4'
    } else if n == 5 {
        '5'
    } else if n == 6 {
        '6'
    } else if n == 7 {
        '7'
    } else if n == 8 {
        '8'
    } else {
        '9'
    }
}

/// The decimal digits of a number, most significant first.
pub open spec fn dec_digits(n: nat) -> Seq<char>
    decreases n,
{
    if n < 10 {
        seq![digit_char(n)]
    } else {
        dec_digits(n / 10).push(digit_char(n % 10))
    }
}

/// Ten to the given power.
pub open spec fn pow10(d: nat) -> nat
    decreases d,
{
    if d == 0 {
        1
    } else {
        10 * pow10((d - 1) as nat)
    }
}

/// How many characters a suffixed name keeps of its original text: room is
/// left for a dash and the digits of any 64-bit counter.
pub const SUFFIX_BASE_MAX: usize = 79;

/// The text a suffixed candidate starts with.
pub open spec fn suffix_base(s: Seq<char>) -> Seq<char> {
    if s.len() <= SUFFIX_BASE_MAX {
        s
    } else {
        s.take(SUFFIX_BASE_MAX as int)
    }
}

/// The `c`-th collision candidate for a desired name.
pub open spec fn suffixed_name(s: Seq<char>, c: nat) -> Seq<char> {
    suffix_base(s) + seq!['-'] + dec_digits(c)
}

/// A decimal rendering has at least one digit.
proof fn lemma_dec_len_min(n: nat)
    ensures
        dec_digits(n).len() >= 1,
    decreases n,
{
    if n >= 10 {
        lemma_dec_len_min(n / 10);
    }
}

/// A number below the `d`-th power of ten has at most `d` digits.
proof fn lemma_dec_len(n: nat, d: nat)
    requires
        d >= 1,
        n < pow10(d),
    ensures
        dec_digits(n).len() <= d,
    decreases d,
{
    if n < 10 {
    } else {
        assert(d > 1) by {
            reveal_with_fuel(pow10, 2);
        }
        assert(n / 10 < pow10((d - 1) as nat)) by {
            assert(pow10(d) == 10 * pow10((d - 1) as nat));
        }
        lemma_dec_len(n / 10, (d - 1) as nat);
    }
}

/// Every character of a decimal rendering is a name character.
proof fn lemma_dec_chars(n: nat)
    ensures
        forall|i: int|
            0 <= i < dec_digits(n).len() ==> is_name_char(#[trigger] dec_digits(n)[i]),
    decreases n,
{
    assert(is_name_char(digit_char(n % 10)));
    if n < 10 {
        assert(is_name_char(digit_char(n)));
        assert(dec_digits(n) =~= seq![digit_char(n)]);
    } else {
        lemma_dec_chars(n / 10);
        let rest = dec_digits(n / 10);
        assert(forall|i: int|
            0 <= i < rest.push(digit_char(n % 10)).len() ==> is_name_char(
                #[trigger] rest.push(digit_char(n % 10))[i],
            ));
    }
}

/// Distinct numbers have distinct decimal renderings.
proof fn lemma_dec_inj(a: nat, b: nat)
    requires
        dec_digits(a) == dec_digits(b),
    ensures
        a == b,
    decreases a,
{
    lemma_dec_len_min(a / 10);
    lemma_dec_len_min(b / 10);
    if a < 10 && b < 10 {
        assert(dec_digits(a)[0] == digit_char(a));
        assert(dec_digits(b)[0] == digit_char(b));
    } else if a >= 10 && b >= 10 {
        assert(dec_digits(a).last() == digit_char(a % 10));
        assert(dec_digits(b).last() == digit_char(b % 10));
        assert(dec_digits(a).drop_last() =~= dec_digits(a / 10));
        assert(dec_digits(b).drop_last() =~= dec_digits(b / 10));
        lemma_dec_inj(a / 10, b / 10);
        assert(a == 10 * (a / 10) + a % 10) by {
            vstd::arithmetic::div_mod::lemma_fundamental_div_mod(a as int, 10);
        }
        assert(b == 10 * (b / 10) + b % 10) by {
            vstd::arithmetic::div_mod::lemma_fundamental_div_mod(b as int, 10);
        }
    } else if a < 10 {
        assert(dec_digits(a).len() == 1);
        assert(dec_digits(b).len() == dec_digits(b / 10).len() + 1);
    } else {
        assert(dec_digits(b).len() == 1);
        assert(dec_digits(a).len() == dec_digits(a / 10).len() + 1);
    }
}

/// Distinct counters give distinct candidates for the same desired name.
proof fn lemma_suffixed_inj(s: Seq<char>, c1: nat, c2: nat)
    requires
        suffixed_name(s, c1) == suffixed_name(s, c2),
    ensures
        c1 == c2,
{
    let base = suffix_base(s) + seq!['-'];
    assert(dec_digits(c1) =~= suffixed_name(s, c1).skip(base.len() as int));
    assert(dec_digits(c2) =~= suffixed_name(s, c2).skip(base.len() as int));
    lemma_dec_inj(c1, c2);
}

/// A valid name's collision candidate is itself a valid name.
proof fn lemma_suffixed_valid(s: Seq<char>, c: nat)
    requires
        valid_name(s),
        c <= u64::MAX,
    ensures
        valid_name(suffixed_name(s, c)),
{
    lemma_dec_chars(c);
    lemma_dec_len_min(c);
    assert(u64::MAX < pow10(20)) by {
        reveal_with_fuel(pow10, 21);
    }
    lemma_dec_len(c, 20);
    let r = suffixed_name(s, c);
    assert(r[0] == s[0]);
    assert(forall|i: int| 0 <= i < r.len() ==> is_name_char(#[trigger] r[i])) by {
        assert(forall|i: int|
            0 <= i < suffix_base(s).len() ==> is_name_char(#[trigger] suffix_base(s)[i]));
    }
}

/// Among the candidates with counters `1..=disv.len() + 1` at least one is
/// free of the disallowed names: the candidates are pairwise distinct, so
/// there are more of them than names they could collide with.
proof fn lemma_suffix_free_candidate(s: Seq<char>, disv: Seq<Seq<char>>)
    ensures
        exists|m: nat|
            1 <= m <= disv.len() + 1 && !disv.contains(#[trigger] suffixed_name(s, m)),
{
    broadcast use vstd::seq_lib::seq_to_set_is_finite;

    assert_by_contradiction!(
        exists|m: nat| 1 <= m <= disv.len() + 1 && !disv.contains(#[trigger] suffixed_name(s, m)),
        {
            let k = disv.len() as int;
            let cands = Seq::new((k + 1) as nat, |i: int| suffixed_name(s, (i + 1) as nat));
            assert forall|i: int, j: int| 0 <= i < cands.len() && 0 <= j < cands.len() && i != j
                implies cands[i] != cands[j] by {
                if cands[i] == cands[j] {
                    lemma_suffixed_inj(s, (i + 1) as nat, (j + 1) as nat);
                }
            }
            assert(cands.no_duplicates());
            cands.unique_seq_to_set();
            assert forall|x: Seq<char>| cands.to_set().contains(x) implies disv.to_set().contains(
                x,
            ) by {
                let i = choose|i: int| 0 <= i < cands.len() && cands[i] == x;
                assert(1 <= i + 1 <= disv.len() + 1);
                assert(disv.contains(suffixed_name(s, (i + 1) as nat)));
            }
            assert(cands.to_set().subset_of(disv.to_set()));
            vstd::set_lib::lemma_len_subset(cands.to_set(), disv.to_set());
            disv.lemma_cardinality_of_set();
            assert(disv.len() + 1 <= disv.len());
        }
    );
}

/// The digit character of a counter value below ten.
fn digit_char_exec(n: u64) -> (c: char)
    requires
        n < 10,
    ensures
        c == digit_char(n as nat),
{
    if n == 0 {
        '0'
    } else if n == 1 {
        '1'
    } else if n == 2 {
        '2'
    } else if n == 3 {
        '3'
    } else if n == 4 {
        '4'
    } else if n == 5 {
        '5'
    } else if n == 6 {
        '6'
    } else if n == 7 {
        '7'
    } else if n == 8 {
        '8'
    } else {
        '9'
    }
}

/// The decimal digits of a counter, most significant first.
fn dec_string(n: u64) -> (r: Vec<char>)
    ensures
        r@ == dec_digits(n as nat),
    decreases n,
{
    if n < 10 {
        let mut v: Vec<char> = Vec::new();
        v.push(digit_char_exec(n));
        assert(v@ =~= seq![digit_char(n as nat)]);
        v
    } else {
        let mut v = dec_string(n / 10);
        v.push(digit_char_exec(n % 10));
        v
    }
}

impl PatchName {
    /// The `c`-th collision candidate: the name (clipped so the result
    /// fits the length bound), a dash, and the counter in decimal.
    fn suffixed(&self, c: u64) -> (r: PatchName)
        ensures
            r@ == suffixed_name(self@, c as nat),
    {
        proof {
            use_type_invariant(self);
        }
        let text = self.name.as_str();
        let n = text.unicode_len();
        let keep = if n <= SUFFIX_BASE_MAX {
            n
        } else {
            SUFFIX_BASE_MAX
        };
        let mut v: Vec<char> = Vec::new();
        let mut i: usize = 0;
        while i < keep
            invariant
                keep <= n == text@.len(),
                i <= keep,
                v@ =~= text@.take(i as int),
            decreases keep - i,
        {
            v.push(text.get_char(i));
            i += 1;
        }
        assert(v@ =~= suffix_base(self@));
        v.push('-');
        let mut digits = dec_string(c);
        v.append(&mut digits);
        assert(v@ =~= suffixed_name(self@, c as nat));
        proof {
            lemma_suffixed_valid(self@, c as nat);
        }
        PatchName { name: chars_to_string(&v) }
    }

    /// Resolve a collision with existing names: the name itself passes
    /// through when it is in `allow` or not in `disallow`; otherwise the
    /// candidates `name-1`, `name-2`, ... are tried in order and the first
    /// acceptable one — the least counter — is returned. Long names are
    /// clipped before the suffix so every candidate fits the length bound.
    pub fn uniquify(self, allow: &Vec<PatchName>, disallow: &Vec<PatchName>) -> (r: PatchName)
        requires
            disallow@.len() < usize::MAX,
        ensures
            ({
                let allowv = names_of(allow@);
                let disv = names_of(disallow@);
                &&& (allowv.contains(self@) || !disv.contains(self@)) ==> r@ == self@
                &&& !(allowv.contains(self@) || !disv.contains(self@)) ==> exists|c: nat|
                    {
                        &&& 1 <= c
                        &&& r@ == suffixed_name(self@, c)
                        &&& allowv.contains(r@) || !disv.contains(r@)
                        &&& forall|m: nat|
                            1 <= m < c ==> disv.contains(#[trigger] suffixed_name(self@, m))
                                && !allowv.contains(suffixed_name(self@, m))
                    }
                &&& valid_name(r@)
            }),
    {
        proof {
            use_type_invariant(&self);
        }
        if names_contain(allow, &self) || !names_contain(disallow, &self) {
            return self;
        }
        let k = disallow.len();
        let mut c: usize = 1;
        while c <= k
            invariant
                disallow@.len() < usize::MAX,
                k == disallow@.len(),
                1 <= c <= k + 1,
                valid_name(self@),
                !names_of(allow@).contains(self@),
                names_of(disallow@).contains(self@),
                forall|m: nat|
                    1 <= m < c ==> names_of(disallow@).contains(#[trigger] suffixed_name(self@, m))
                        && !names_of(allow@).contains(suffixed_name(self@, m)),
            decreases k + 1 - c,
        {
            let cand = self.suffixed(c as u64);
            if names_contain(allow, &cand) || !names_contain(disallow, &cand) {
                proof {
                    use_type_invariant(&cand);
                    let m = c as nat;
                    assert(1 <= m && cand@ == suffixed_name(self@, m) && (names_of(
                        allow@,
                    ).contains(cand@) || !names_of(disallow@).contains(cand@)) && (forall|mm: nat|
                        1 <= mm < m ==> names_of(disallow@).contains(
                            #[trigger] suffixed_name(self@, mm),
                        ) && !names_of(allow@).contains(suffixed_name(self@, mm))));
                }
                return cand;
            }
            c += 1;
        }
        let cand = self.suffixed(c as u64);
        if names_contain(allow, &cand) || !names_contain(disallow, &cand) {
            proof {
                use_type_invariant(&cand);
                let m = c as nat;
                assert(1 <= m && cand@ == suffixed_name(self@, m) && (names_of(allow@).contains(
                    cand@,
                ) || !names_of(disallow@).contains(cand@)) && (forall|mm: nat|
                    1 <= mm < m ==> names_of(disallow@).contains(
                        #[trigger] suffixed_name(self@, mm),
                    ) && !names_of(allow@).contains(suffixed_name(self@, mm))));
            }
            return cand;
        }
        proof {
            let disv = names_of(disallow@);
            assert(forall|m: nat|
                1 <= m <= disv.len() + 1 ==> disv.contains(#[trigger] suffixed_name(self@, m)));
            lemma_suffix_free_candidate(self@, disv);
            let m = choose|m: nat|
                1 <= m <= disv.len() + 1 && !disv.contains(#[trigger] suffixed_name(self@, m));
            assert(disv.contains(suffixed_name(self@, m)));
        }
        cand
    }
}

/// The decimal text of a count.
pub(crate) fn u64_text(n: u64) -> (r: String)
    ensures
        r@ == dec_digits(n as nat),
{
    let digits = dec_string(n);
    chars_to_string(&digits)
}

/// Relies on `String::push`: appends exactly the given character.
#[verifier::external_body]
pub(crate) fn push_char(s: &mut String, c: char)
    ensures
        final(s)@ == old(s)@.push(c),
{
    s.push(c);
}

/// Build a string spelling exactly the given characters.
pub(crate) fn chars_to_string(v: &Vec<char>) -> (r: String)
    ensures
        r@ == v@,
{
    let mut s = String::new();
    let mut i: usize = 0;
    while i < v.len()
        invariant
            i <= v@.len(),
            s@ == v@.take(i as int),
        decreases v@.len() - i,
    {
        proof {
            assert(v@.take(i + 1) =~= v@.take(i as int).push(v@[i as int]));
        }
        push_char(&mut s, v[i]);
        i += 1;
    }
    assert(v@.take(v@.len() as int) =~= v@);
    s
}

/// Exec mirror of [`keep_char`].
fn keep_char_exec(c: char, allow_dots: bool) -> (r: bool)
    ensures
        r == keep_char(c, allow_dots),
{
    name_char(c) && (allow_dots || c != '.')
}

/// Exec mirror of [`is_trim_char`].
fn trim_char_exec(c: char) -> (r: bool)
    ensures
        r == is_trim_char(c),
{
    c == '-' || c == '.'
}

/// Exec mirror of [`is_name_char`].
fn name_char(c: char) -> (r: bool)
    ensures
        r == is_name_char(c),
{
    let u = c as u32;
    ('a' as u32 <= u && u <= 'z' as u32) || ('A' as u32 <= u && u <= 'Z' as u32) || ('0' as u32
        <= u && u <= '9' as u32) || c == '-' || c == '_' || c == '.'
}

/// Append copies of all names in `src` to `dst`.
pub fn append_all(dst: &mut Vec<PatchName>, src: &Vec<PatchName>)
    ensures
        names_of(final(dst)@) == names_of(old(dst)@) + names_of(src@),
{
    let mut i: usize = 0;
    while i < src.len()
        invariant
            i <= src@.len(),
            names_of(dst@) =~= names_of(old(dst)@) + names_of(src@).take(i as int),
        decreases src@.len() - i,
    {
        let d = src[i].duplicate();
        let ghost pre = dst@;
        dst.push(d);
        proof {
            assert(names_of(dst@) =~= names_of(pre).push(d@));
            assert(names_of(dst@) =~= names_of(old(dst)@) + names_of(src@).take(i + 1));
        }
        i += 1;
    }
    assert(names_of(src@).take(src@.len() as int) =~= names_of(src@));
    assert(names_of(dst@) =~= names_of(old(dst)@) + names_of(src@));
}

/// Whether a list of names contains one spelling the given text.
pub fn names_contain(v: &Vec<PatchName>, n: &PatchName) -> (r: bool)
    ensures
        r == names_of(v@).contains(n@),
{
    let mut i: usize = 0;
    while i < v.len()
        invariant
            i <= v@.len(),
            forall|j: int| 0 <= j < i ==> names_of(v@)[j] != n@,
        decreases v@.len() - i,
    {
        if v[i].same_as(n) {
            assert(names_of(v@)[i as int] == n@);
            return true;
        }
        i += 1;
    }
    return false;
}

} // verus!
