//! The camera's settings: reading their raw numbers, finding them, and listing them.
use vstd::arithmetic::power2::{lemma_pow2_pos, lemma_pow2_unfold, pow2};
use vstd::prelude::*;

use crate::order::{ahead, rank};
use crate::text::{
    comes_before, hex, hex_text, law_dictionary_order, lemma_precedes_irreflexive,
    lemma_precedes_total, lemma_precedes_transitive, precedes, splits, to_chars,
};

verus! {

/// The width in bits that a type number stands for: by its last hexadecimal digit, and the
/// greatest plain width where that is not known.
pub open spec fn width_of(value_type: u32) -> int {
    let base = value_type % 16;
    if base == 1 {
        8
    } else if base == 2 {
        16
    } else if base == 3 {
        32
    } else if base == 5 {
        128
    } else {
        64
    }
}

/// The width in bits that a type number stands for.
pub fn type_bits(value_type: u32) -> (r: u32)
    ensures
        r == width_of(value_type),
{
    match value_type % 16 {
        1 => 8,
        2 => 16,
        3 => 32,
        5 => 128,
        _ => 64,
    }
}

/// The number that the last `bits` bits of `v` are in two's complement.
pub open spec fn signed(v: int, bits: nat) -> int {
    let m = v % (pow2(bits) as int);
    if m >= pow2((bits - 1) as nat) {
        m - pow2(bits)
    } else {
        m
    }
}

/// The number that all bits of `v` are in two's complement.
fn as_signed(v: u64) -> (r: i64)
    ensures
        r == (if v >= 0x8000_0000_0000_0000 {
            v - 0x1_0000_0000_0000_0000
        } else {
            v as int
        }),
{
    if v >= 0x8000_0000_0000_0000 {
        (v - 0x8000_0000_0000_0000) as i64 + i64::MIN
    } else {
        v as i64
    }
}

proof fn lemma_pow2_64()
    ensures
        pow2(64) == 0x1_0000_0000_0000_0000,
        pow2(63) == 0x8000_0000_0000_0000,
{
    assert(pow2(64) == 0x1_0000_0000_0000_0000) by {
        vstd::arithmetic::power2::lemma2_to64();
    }
    assert(pow2(63) == 0x8000_0000_0000_0000) by {
        vstd::arithmetic::power2::lemma2_to64_rest();
    }
}

/// Reads a raw number of the given width with its sign. A width of sixty-four or more means
/// all bits.
pub fn signext(v: u64, bits: u32) -> (r: i64)
    requires
        1 <= bits,
    ensures
        r == signed(
            v as int,
            if bits >= 64 {
                64
            } else {
                bits as nat
            },
        ),
{
    proof {
        lemma_pow2_64();
    }
    if bits >= 64 {
        return as_signed(v);
    }
    let mut half: u64 = 1;
    let mut i: u32 = 1;
    proof {
        vstd::arithmetic::power2::lemma2_to64();
    }
    while i < bits
        invariant
            1 <= i <= bits,
            bits < 64,
            half == pow2((i - 1) as nat),
            pow2(63) == 0x8000_0000_0000_0000,
        decreases bits - i,
    {
        proof {
            lemma_pow2_unfold(i as nat);
            vstd::arithmetic::power2::lemma_pow2_strictly_increases(i as nat, 63);
        }
        half = half * 2;
        i = i + 1;
    }
    proof {
        lemma_pow2_unfold(bits as nat);
        lemma_pow2_pos((bits - 1) as nat);
        if bits < 63 {
            vstd::arithmetic::power2::lemma_pow2_strictly_increases(bits as nat, 63);
        }
    }
    let full: u64 = half * 2;
    let m: u64 = v % full;
    if m >= half {
        (m as i128 - full as i128) as i64
    } else {
        m as i64
    }
}

/// The values of a control as numbers: with their sign where the control has one, else as
/// they are.
pub fn control_values(value_type: u32, is_signed: bool, values: &Vec<u64>) -> (r: Vec<i64>)
    ensures
        r@.len() == values@.len(),
        forall|i: int|
            0 <= i < r@.len() ==> #[trigger] r@[i] == signed(
                values@[i] as int,
                if is_signed && width_of(value_type) < 64 {
                    width_of(value_type) as nat
                } else {
                    64
                },
            ),
{
    let bits = type_bits(value_type);
    let mut r: Vec<i64> = Vec::new();
    let mut i: usize = 0;
    while i < values.len()
        invariant
            i <= values@.len(),
            bits == width_of(value_type),
            r@.len() == i,
            forall|k: int|
                0 <= k < i ==> #[trigger] r@[k] == signed(
                    values@[k] as int,
                    if is_signed && width_of(value_type) < 64 {
                        width_of(value_type) as nat
                    } else {
                        64
                    },
                ),
        decreases values.len() - i,
    {
        if is_signed {
            r.push(signext(values[i], bits));
        } else {
            r.push(signext(values[i], 64));
        }
        i = i + 1;
    }
    r
}

/// A setting, as the camera reports it.
#[derive(Debug)]
pub struct Property {
    /// Which one.
    pub code: u32,
    /// Its value.
    pub current: u64,
    /// Whether it can be set.
    pub editable: bool,
    /// The values that it can be set to.
    pub allowed: Vec<u64>,
    /// The type of its values.
    pub value_type: u32,
}

/// The first setting with the given code, from `i` on.
pub open spec fn first_with(props: Seq<Property>, code: u32, i: int) -> Option<int>
    decreases props.len() - i,
{
    if i >= props.len() {
        None
    } else if props[i].code == code {
        Some(i)
    } else {
        first_with(props, code, i + 1)
    }
}

/// A setting, as it is shown.
#[derive(Debug)]
pub struct PropView {
    /// Its value.
    pub value: u64,
    /// Whether it can be set.
    pub editable: bool,
    /// The values that it can be set to.
    pub allowed: Vec<u64>,
    /// The type of its values.
    pub value_type: u32,
}

/// Whether a setting is shown as it was reported.
pub open spec fn shows_property(p: Property, v: PropView) -> bool {
    &&& v.value == p.current
    &&& v.editable == p.editable
    &&& v.allowed@ == p.allowed@
    &&& v.value_type == p.value_type
}

/// Whether `r` is the setting with the given code, if the camera reports it.
pub open spec fn finds(props: Seq<Property>, code: u32, r: Option<PropView>) -> bool {
    match (r, first_with(props, code, 0)) {
        (Some(v), Some(i)) => shows_property(props[i], v),
        (None, None) => true,
        _ => false,
    }
}

/// The place of the first setting with the given code.
pub fn position(props: &Vec<Property>, code: u32) -> (r: Option<usize>)
    ensures
        match (r, first_with(props@, code, 0)) {
            (Some(i), Some(j)) => i == j && i < props@.len(),
            (None, None) => true,
            _ => false,
        },
{
    let mut i: usize = 0;
    while i < props.len()
        invariant
            i <= props@.len(),
            first_with(props@, code, i as int) == first_with(props@, code, 0),
        decreases props.len() - i,
    {
        if props[i].code == code {
            return Some(i);
        }
        i = i + 1;
    }
    None
}

/// The setting with the given code.
pub fn find(props: &Vec<Property>, code: u32) -> (r: Option<PropView>)
    ensures
        finds(props@, code, r),
{
    match position(props, code) {
        Some(i) => {
            let p = &props[i];
            let mut allowed: Vec<u64> = Vec::new();
            allowed.extend_from_slice(p.allowed.as_slice());
            assert(allowed@ =~= p.allowed@);
            Some(
                PropView {
                    value: p.current,
                    editable: p.editable,
                    allowed,
                    value_type: p.value_type,
                },
            )
        },
        None => None,
    }
}

/// The value of the setting with the given code.
pub fn current_value(props: &Vec<Property>, code: u32) -> (r: Option<u64>)
    ensures
        match (r, first_with(props@, code, 0)) {
            (Some(v), Some(i)) => v == props@[i].current,
            (None, None) => true,
            _ => false,
        },
{
    match position(props, code) {
        Some(i) => Some(props[i].current),
        None => None,
    }
}

/// Where the settings that are shown are found.
#[derive(Clone, Copy, Debug)]
pub struct PropertyCodes {
    pub focus_mode: u32,
    pub save_dest: u32,
    pub exposure_mode: u32,
    pub iso: u32,
    pub shutter_speed: u32,
    pub f_number: u32,
    pub ev: u32,
    pub white_balance: u32,
    pub drive_mode: u32,
    pub metering: u32,
    pub flash_mode: u32,
    pub file_type: u32,
    pub recording_state: u32,
    pub shutter_type: u32,
    pub silent_mode: u32,
    pub battery: u32,
    pub remain_shots: u32,
    pub jpeg_quality: u32,
    pub picture_profile: u32,
    pub color_temp: u32,
    pub focus_area: u32,
    pub focus_indication: u32,
}

/// The settings that are shown; one that the camera does not report is left open.
#[derive(Debug)]
pub struct Properties {
    pub focus_mode: Option<PropView>,
    pub save_dest: Option<PropView>,
    pub exposure_mode: Option<PropView>,
    pub iso: Option<PropView>,
    pub shutter_speed: Option<PropView>,
    pub f_number: Option<PropView>,
    pub ev: Option<PropView>,
    pub white_balance: Option<PropView>,
    pub drive_mode: Option<PropView>,
    pub metering: Option<PropView>,
    pub flash_mode: Option<PropView>,
    pub file_type: Option<PropView>,
    pub recording_state: Option<PropView>,
    pub shutter_type: Option<PropView>,
    pub silent_mode: Option<PropView>,
    pub battery: Option<PropView>,
    pub remain_shots: Option<PropView>,
    pub jpeg_quality: Option<PropView>,
    pub picture_profile: Option<PropView>,
    pub color_temp: Option<PropView>,
    pub focus_area: Option<PropView>,
    pub focus_indication: Option<PropView>,
}

/// The settings that are shown, out of all that the camera reports.
pub fn properties(props: &Vec<Property>, c: &PropertyCodes) -> (r: Properties)
    ensures
        finds(props@, c.focus_mode, r.focus_mode),
        finds(props@, c.save_dest, r.save_dest),
        finds(props@, c.exposure_mode, r.exposure_mode),
        finds(props@, c.iso, r.iso),
        finds(props@, c.shutter_speed, r.shutter_speed),
        finds(props@, c.f_number, r.f_number),
        finds(props@, c.ev, r.ev),
        finds(props@, c.white_balance, r.white_balance),
        finds(props@, c.drive_mode, r.drive_mode),
        finds(props@, c.metering, r.metering),
        finds(props@, c.flash_mode, r.flash_mode),
        finds(props@, c.file_type, r.file_type),
        finds(props@, c.recording_state, r.recording_state),
        finds(props@, c.shutter_type, r.shutter_type),
        finds(props@, c.silent_mode, r.silent_mode),
        finds(props@, c.battery, r.battery),
        finds(props@, c.remain_shots, r.remain_shots),
        finds(props@, c.jpeg_quality, r.jpeg_quality),
        finds(props@, c.picture_profile, r.picture_profile),
        finds(props@, c.color_temp, r.color_temp),
        finds(props@, c.focus_area, r.focus_area),
        finds(props@, c.focus_indication, r.focus_indication),
{
    Properties {
        focus_mode: find(props, c.focus_mode),
        save_dest: find(props, c.save_dest),
        exposure_mode: find(props, c.exposure_mode),
        iso: find(props, c.iso),
        shutter_speed: find(props, c.shutter_speed),
        f_number: find(props, c.f_number),
        ev: find(props, c.ev),
        white_balance: find(props, c.white_balance),
        drive_mode: find(props, c.drive_mode),
        metering: find(props, c.metering),
        flash_mode: find(props, c.flash_mode),
        file_type: find(props, c.file_type),
        recording_state: find(props, c.recording_state),
        shutter_type: find(props, c.shutter_type),
        silent_mode: find(props, c.silent_mode),
        battery: find(props, c.battery),
        remain_shots: find(props, c.remain_shots),
        jpeg_quality: find(props, c.jpeg_quality),
        picture_profile: find(props, c.picture_profile),
        color_temp: find(props, c.color_temp),
        focus_area: find(props, c.focus_area),
        focus_indication: find(props, c.focus_indication),
    }
}

/// A setting found by its code has that code, and none before it has.
pub proof fn law_first_of_its_code(props: Seq<Property>, code: u32, i: int)
    requires
        0 <= i,
    ensures
        match first_with(props, code, i) {
            Some(k) => {
                &&& i <= k < props.len()
                &&& props[k].code == code
                &&& forall|j: int| i <= j < k ==> (#[trigger] props[j]).code != code
            },
            None => forall|j: int| i <= j < props.len() ==> (#[trigger] props[j]).code != code,
        },
    decreases props.len() - i,
{
    if i < props.len() && props[i].code != code {
        law_first_of_its_code(props, code, i + 1);
    }
}

/// A number of a width and sign is read back as it was: what stands in the last `bits` bits
/// of a number in range is that number.
pub proof fn law_signed_reads_back(n: int, bits: nat, high: int)
    requires
        1 <= bits <= 64,
        -pow2((bits - 1) as nat) <= n < pow2((bits - 1) as nat),
    ensures
        signed(n + high * pow2(bits), bits) == n,
{
    lemma_pow2_unfold(bits);
    lemma_pow2_pos((bits - 1) as nat);
    let p = pow2(bits) as int;
    let m = if n < 0 {
        n + p
    } else {
        n
    };
    let k = if n < 0 {
        high - 1
    } else {
        high
    };
    assert(k * p + m == n + high * p) by (nonlinear_arith)
        requires
            (k == high && m == n) || (k == high - 1 && m == n + p),
    ;
    vstd::arithmetic::div_mod::lemma_fundamental_div_mod_converse(n + high * p, p, k, m);
}

/// A line of the list of settings.
#[derive(Debug)]
pub struct CodeRow {
    /// The code, in hexadecimal.
    pub code: String,
    /// The type, in hexadecimal.
    pub kind: String,
    /// Whether it can be set.
    pub editable: bool,
    /// How many values it can be set to.
    pub allowed_n: usize,
}

/// The code of a setting, as it is listed.
pub open spec fn code_text(p: Property) -> Seq<char> {
    hex(p.code as nat, 4)
}

/// Whether a line is that of a setting.
pub open spec fn lists(p: Property, row: CodeRow) -> bool {
    &&& row.code@ == code_text(p)
    &&& row.kind@ == hex(p.value_type as nat, 4)
    &&& row.editable == p.editable
    &&& row.allowed_n == p.allowed@.len()
}

/// Whether setting `i` is listed before setting `j`: by the text of its code, equal ones as
/// they were reported.
pub open spec fn listed_before(props: Seq<Property>, i: int, j: int) -> bool {
    let (a, b) = (code_text(props[i]), code_text(props[j]));
    precedes(a, b, 0) || (a == b && i < j)
}

/// Whether `order` is the order of the list.
pub open spec fn is_listing(props: Seq<Property>, order: Seq<usize>) -> bool {
    &&& order.len() == props.len()
    &&& forall|i: int| 0 <= i < order.len() ==> #[trigger] order[i] < props.len()
    &&& forall|i: int, j: int|
        0 <= i < j < order.len() ==> listed_before(
            props,
            #[trigger] order[i] as int,
            #[trigger] order[j] as int,
        )
}

/// How many of the first `n` texts come before a text.
pub open spec fn smaller(texts: Seq<Vec<char>>, t: Seq<char>, n: int) -> int
    decreases n,
{
    if n <= 0 {
        0
    } else {
        smaller(texts, t, n - 1) + if precedes(texts[n - 1]@, t, 0) {
            1int
        } else {
            0
        }
    }
}

/// What comes before `a` comes before `b` too, and `a` itself does.
proof fn lemma_smaller(texts: Seq<Vec<char>>, a: int, b: int, n: int)
    requires
        0 <= n <= texts.len(),
        0 <= a < texts.len(),
        0 <= b < texts.len(),
        precedes(texts[a]@, texts[b]@, 0),
    ensures
        0 <= smaller(texts, texts[a]@, n) <= n,
        smaller(texts, texts[a]@, n) + (if a < n {
            1int
        } else {
            0
        }) <= smaller(texts, texts[b]@, n) <= n,
    decreases n,
{
    if n > 0 {
        lemma_smaller(texts, a, b, n - 1);
        if precedes(texts[n - 1]@, texts[a]@, 0) {
            lemma_precedes_transitive(texts[n - 1]@, texts[a]@, texts[b]@, 0);
        }
        if n - 1 == a {
            lemma_precedes_irreflexive(texts[a]@, 0);
        }
    }
}

proof fn lemma_smaller_range(texts: Seq<Vec<char>>, t: Seq<char>, n: int)
    requires
        0 <= n,
    ensures
        0 <= smaller(texts, t, n) <= n,
    decreases n,
{
    if n > 0 {
        lemma_smaller_range(texts, t, n - 1);
    }
}

fn count_smaller(texts: &Vec<Vec<char>>, k: usize) -> (r: usize)
    requires
        k < texts@.len(),
    ensures
        r == smaller(texts@, texts@[k as int]@, texts@.len() as int),
        r <= texts@.len(),
{
    let mut c: usize = 0;
    let mut i: usize = 0;
    while i < texts.len()
        invariant
            i <= texts@.len(),
            k < texts@.len(),
            c == smaller(texts@, texts@[k as int]@, i as int),
            c <= i,
        decreases texts.len() - i,
    {
        if comes_before(&texts[i], &texts[k]) {
            c = c + 1;
        }
        i = i + 1;
    }
    c
}

/// The list of all settings that the camera reports, by the text of their codes.
pub fn code_rows(props: &Vec<Property>) -> (r: Vec<CodeRow>)
    ensures
        exists|order: Seq<usize>| #[trigger]
            is_listing(props@, order) && r@.len() == order.len() && forall|i: int|
                0 <= i < r@.len() ==> lists(props@[order[i] as int], #[trigger] r@[i]),
{
    let n = props.len();
    let mut texts: Vec<Vec<char>> = Vec::new();
    let mut i: usize = 0;
    while i < n
        invariant
            n == props@.len(),
            i <= n,
            texts@.len() == i,
            forall|k: int| 0 <= k < i ==> (#[trigger] texts@[k])@ == code_text(props@[k]),
        decreases n - i,
    {
        let t = hex_text(props[i].code as u64, 4);
        texts.push(to_chars(t.as_str()));
        i = i + 1;
    }
    let mut keys: Vec<u128> = Vec::new();
    let mut j: usize = 0;
    while j < n
        invariant
            j <= n,
            n == texts@.len(),
            keys@.len() == j,
            forall|k: int|
                0 <= k < j ==> #[trigger] keys@[k] == n - smaller(texts@, texts@[k]@, n as int),
        decreases n - j,
    {
        keys.push((n - count_smaller(&texts, j)) as u128);
        j = j + 1;
    }
    let order = rank(&keys);
    proof {
        assert forall|p: int, q: int| 0 <= p < q < order@.len() implies listed_before(
            props@,
            #[trigger] order@[p] as int,
            #[trigger] order@[q] as int,
        ) by {
            let (a, b) = (order@[p] as int, order@[q] as int);
            assert(ahead(keys@, a, b));
            assert(texts@[a]@ == code_text(props@[a]) && texts@[b]@ == code_text(props@[b]));
            if precedes(texts@[b]@, texts@[a]@, 0) {
                lemma_smaller(texts@, b, a, n as int);
            }
            if !precedes(texts@[a]@, texts@[b]@, 0) && !precedes(texts@[b]@, texts@[a]@, 0) {
                lemma_precedes_total(texts@[a]@, texts@[b]@, 0);
            }
        }
        assert(is_listing(props@, order@));
    }
    let mut r: Vec<CodeRow> = Vec::new();
    let mut k: usize = 0;
    while k < order.len()
        invariant
            k <= order@.len(),
            is_listing(props@, order@),
            r@.len() == k,
            forall|i: int|
                0 <= i < k ==> lists(props@[order@[i] as int], #[trigger] r@[i]),
        decreases order.len() - k,
    {
        assert(order@[k as int] < props@.len());
        let p = &props[order[k]];
        r.push(
            CodeRow {
                code: hex_text(p.code as u64, 4),
                kind: hex_text(p.value_type as u64, 4),
                editable: p.editable,
                allowed_n: p.allowed.len(),
            },
        );
        k = k + 1;
    }
    r
}

/// The codes that a camera has, in hexadecimal.
pub fn supported(codes: &Vec<u32>) -> (r: Vec<String>)
    ensures
        r@.len() == codes@.len(),
        forall|i: int| 0 <= i < r@.len() ==> (#[trigger] r@[i])@ == hex(codes@[i] as nat, 4),
{
    let mut r: Vec<String> = Vec::new();
    let mut i: usize = 0;
    while i < codes.len()
        invariant
            i <= codes@.len(),
            r@.len() == i,
            forall|k: int| 0 <= k < i ==> (#[trigger] r@[k])@ == hex(codes@[k] as nat, 4),
        decreases codes.len() - i,
    {
        r.push(hex_text(codes[i] as u64, 4));
        i = i + 1;
    }
    r
}

/// A type number stands for a width by its last hexadecimal digit: one to three for eight, sixteen
/// and thirty-two bits, five for a hundred and twenty-eight, and any other for sixty-four.
pub proof fn law_widths(value_type: u32)
    ensures
        value_type % 16 == 1 ==> width_of(value_type) == 8,
        value_type % 16 == 2 ==> width_of(value_type) == 16,
        value_type % 16 == 3 ==> width_of(value_type) == 32,
        value_type % 16 == 4 ==> width_of(value_type) == 64,
        value_type % 16 == 5 ==> width_of(value_type) == 128,
        value_type % 16 == 0 || value_type % 16 > 5 ==> width_of(value_type) == 64,
        value_type <= u32::MAX - 16 ==> width_of((value_type + 16) as u32) == width_of(value_type),
{
}

/// What is found of a setting is what the camera reported of the first one with its code; nothing
/// where it reported none.
pub proof fn law_settings_are_found_by_code(props: Seq<Property>, code: u32, r: Option<PropView>) -> (i:
    int)
    requires
        finds(props, code, r),
    ensures
        match r {
            Some(v) => {
                &&& 0 <= i < props.len()
                &&& props[i].code == code
                &&& forall|j: int| 0 <= j < i ==> (#[trigger] props[j]).code != code
                &&& v.value == props[i].current
                &&& v.editable == props[i].editable
                &&& v.allowed@ == props[i].allowed@
                &&& v.value_type == props[i].value_type
            },
            None => forall|j: int| 0 <= j < props.len() ==> (#[trigger] props[j]).code != code,
        },
{
    law_first_of_its_code(props, code, 0);
    match first_with(props, code, 0) {
        Some(i) => i,
        None => 0,
    }
}

/// Settings are listed by the text of their codes, in the order of a dictionary, and as they were
/// reported where that is the same. Each is listed once, with its code, its type, whether it can
/// be set, and how many values it can have.
pub proof fn law_settings_are_listed_in_order(
    props: Seq<Property>,
    order: Seq<usize>,
    i: int,
    j: int,
    row: CodeRow,
)
    requires
        is_listing(props, order),
        0 <= i < j < order.len(),
        lists(props[order[i] as int], row),
    ensures
        ({
            let (a, b) = (props[order[i] as int], props[order[j] as int]);
            let (s, t) = (hex(a.code as nat, 4), hex(b.code as nat, 4));
            &&& order[i] != order[j]
            &&& (exists|k: int| #[trigger] splits(s, t, k)) || (s == t && order[i] < order[j])
            &&& row.code@ == s
            &&& row.kind@ == hex(a.value_type as nat, 4)
            &&& row.editable == a.editable
            &&& row.allowed_n == a.allowed@.len()
        }),
{
    let (p, q) = (order[i] as int, order[j] as int);
    assert(listed_before(props, p, q));
    let (s, t) = (code_text(props[p]), code_text(props[q]));
    law_dictionary_order(s, t);
    if p == q {
        let k = choose|k: int| #[trigger] splits(s, t, k);
        assert(k < s.len() ==> (s[k] as int) < (t[k] as int));
    }
}

} // verus!
