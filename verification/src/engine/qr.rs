//! QR, Micro QR, rMQR and Data Matrix symbols rendered at tape height.

use vstd::prelude::*;

use super::bitmap::{fits_bitmap, Bitmap1Bit};

verus! {

// ---------------------------------------------------------------------------
// Strings
// ---------------------------------------------------------------------------

/// Character-wise string equality.
pub fn str_eq(a: &str, b: &str) -> (r: bool)
    ensures
        r == (a@ == b@),
{
    let n = a.unicode_len();
    let m = b.unicode_len();
    if n != m {
        return false;
    }
    let mut i: usize = 0;
    while i < n
        invariant
            n == a@.len(),
            m == b@.len(),
            n == m,
            i <= n,
            a@.take(i as int) == b@.take(i as int),
        decreases n - i,
    {
        if a.get_char(i) != b.get_char(i) {
            assert(a@[i as int] != b@[i as int]);
            return false;
        }
        assert(a@.take(i + 1) =~= a@.take(i as int).push(a@[i as int]));
        assert(b@.take(i + 1) =~= b@.take(i as int).push(b@[i as int]));
        i = i + 1;
    }
    assert(a@.take(n as int) =~= a@);
    assert(b@.take(n as int) =~= b@);
    true
}

/// Decimal digits of `n`, most significant first.
pub open spec fn decimal(n: nat) -> Seq<char>
    decreases n,
{
    if n < 10 {
        seq![digit_char(n)]
    } else {
        decimal(n / 10) + seq![digit_char(n % 10)]
    }
}

pub open spec fn digit_char(d: nat) -> char {
    if d == 0 { '0' } else if d == 1 { '1' } else if d == 2 { '2' } else if d == 3 { '3' } else if d == 4 {
        '4'
    } else if d == 5 { '5' } else if d == 6 { '6' } else if d == 7 { '7' } else if d == 8 { '8' } else { '9' }
}

/// The one-character string of decimal digit `d`.
fn digit_str(d: u32) -> (s: &'static str)
    requires
        d < 10,
    ensures
        s@ == seq![digit_char(d as nat)],
{
    proof {
        reveal_strlit("0");
        reveal_strlit("1");
        reveal_strlit("2");
        reveal_strlit("3");
        reveal_strlit("4");
        reveal_strlit("5");
        reveal_strlit("6");
        reveal_strlit("7");
        reveal_strlit("8");
        reveal_strlit("9");
    }
    match d {
        0 => "0",
        1 => "1",
        2 => "2",
        3 => "3",
        4 => "4",
        5 => "5",
        6 => "6",
        7 => "7",
        8 => "8",
        _ => "9",
    }
}

/// `n` in decimal, most significant digit first, without sign or padding.
fn decimal_string(n: u32) -> (s: String)
    ensures
        s@ == decimal(n as nat),
    decreases n,
{
    if n < 10 {
        digit_str(n).to_string()
    } else {
        let head = decimal_string(n / 10);
        head.concat(digit_str(n % 10))
    }
}

// ---------------------------------------------------------------------------
// Symbol kinds and versions
// ---------------------------------------------------------------------------

/// A symbol version of the QR family.
#[derive(Clone, Copy, Debug, PartialEq, Eq, Structural)]
pub enum QrVersion {
    /// Standard QR, version 1 to 40.
    Normal(i16),
    /// Micro QR, version 1 to 4.
    Micro(i16),
    /// rMQR with the given height and width in modules.
    RectMicro(i16, i16),
}

/// Error correction level, from lowest to highest.
#[derive(Clone, Copy, Debug, PartialEq, Eq, Structural)]
pub enum EcLevel {
    L,
    M,
    Q,
    H,
}

/// The symbol families a caller may request by name.
#[derive(Clone, Copy, Debug, PartialEq, Eq, Structural)]
pub enum QrType {
    Standard,
    Micro,
    Rmqr,
    DataMatrix,
}

pub open spec fn spec_qr_type(s: Seq<char>) -> Option<QrType> {
    if s == "standard"@ {
        Some(QrType::Standard)
    } else if s == "micro"@ {
        Some(QrType::Micro)
    } else if s == "rmqr"@ {
        Some(QrType::Rmqr)
    } else if s == "datamatrix"@ {
        Some(QrType::DataMatrix)
    } else {
        None
    }
}

/// The symbol family named `s`, if any.
pub fn parse_qr_type(s: &str) -> (t: Option<QrType>)
    ensures
        t == spec_qr_type(s@),
{
    if str_eq(s, "standard") {
        Some(QrType::Standard)
    } else if str_eq(s, "micro") {
        Some(QrType::Micro)
    } else if str_eq(s, "rmqr") {
        Some(QrType::Rmqr)
    } else if str_eq(s, "datamatrix") {
        Some(QrType::DataMatrix)
    } else {
        None
    }
}

pub open spec fn spec_ec_from_str(s: Seq<char>) -> Option<EcLevel> {
    if s == "L"@ {
        Some(EcLevel::L)
    } else if s == "M"@ {
        Some(EcLevel::M)
    } else if s == "Q"@ {
        Some(EcLevel::Q)
    } else if s == "H"@ {
        Some(EcLevel::H)
    } else {
        None
    }
}

/// The error correction level named `s` ("L", "M", "Q" or "H").
pub fn ec_from_str(s: &str) -> (ec: Option<EcLevel>)
    ensures
        ec == spec_ec_from_str(s@),
{
    if str_eq(s, "L") {
        Some(EcLevel::L)
    } else if str_eq(s, "M") {
        Some(EcLevel::M)
    } else if str_eq(s, "Q") {
        Some(EcLevel::Q)
    } else if str_eq(s, "H") {
        Some(EcLevel::H)
    } else {
        None
    }
}

pub open spec fn ec_name(ec: EcLevel) -> Seq<char> {
    match ec {
        EcLevel::L => "L"@,
        EcLevel::M => "M"@,
        EcLevel::Q => "Q"@,
        EcLevel::H => "H"@,
    }
}

/// The name of an error correction level.
pub fn ec_to_str(ec: EcLevel) -> (s: &'static str)
    ensures
        s@ == ec_name(ec),
{
    match ec {
        EcLevel::L => "L",
        EcLevel::M => "M",
        EcLevel::Q => "Q",
        EcLevel::H => "H",
    }
}

/// Rank of a level, higher meaning more error correction.
pub open spec fn ec_rank(ec: EcLevel) -> int {
    match ec {
        EcLevel::L => 0,
        EcLevel::M => 1,
        EcLevel::Q => 2,
        EcLevel::H => 3,
    }
}

fn ec_rank_exec(ec: EcLevel) -> (r: u32)
    ensures
        r == ec_rank(ec),
{
    match ec {
        EcLevel::L => 0,
        EcLevel::M => 1,
        EcLevel::Q => 2,
        EcLevel::H => 3,
    }
}

/// The 32 rMQR sizes (height, width), in catalogue order.
pub open spec fn rmqr_entry(i: int) -> (i16, i16) {
    if i == 0 { (7, 43) } else if i == 1 { (7, 59) } else if i == 2 { (7, 77) } else if i == 3 { (7, 99) }
    else if i == 4 { (7, 139) } else if i == 5 { (9, 43) } else if i == 6 { (9, 59) } else if i == 7 { (9, 77) }
    else if i == 8 { (9, 99) } else if i == 9 { (9, 139) } else if i == 10 { (11, 27) } else if i == 11 { (11, 43) }
    else if i == 12 { (11, 59) } else if i == 13 { (11, 77) } else if i == 14 { (11, 99) } else if i == 15 { (11, 139) }
    else if i == 16 { (13, 27) } else if i == 17 { (13, 43) } else if i == 18 { (13, 59) } else if i == 19 { (13, 77) }
    else if i == 20 { (13, 99) } else if i == 21 { (13, 139) } else if i == 22 { (15, 43) } else if i == 23 { (15, 59) }
    else if i == 24 { (15, 77) } else if i == 25 { (15, 99) } else if i == 26 { (15, 139) } else if i == 27 { (17, 43) }
    else if i == 28 { (17, 59) } else if i == 29 { (17, 77) } else if i == 30 { (17, 99) } else { (17, 139) }
}

pub open spec fn rmqr_count() -> int {
    32
}

/// The rMQR size at catalogue position `i`.
pub fn rmqr_size(i: usize) -> (r: Option<(i16, i16)>)
    ensures
        r == if i < rmqr_count() { Some(rmqr_entry(i as int)) } else { None },
{
    let table: [(i16, i16); 32] = [
        (7, 43), (7, 59), (7, 77), (7, 99), (7, 139), (9, 43), (9, 59), (9, 77), (9, 99), (9, 139),
        (11, 27), (11, 43), (11, 59), (11, 77), (11, 99), (11, 139), (13, 27), (13, 43), (13, 59), (13, 77),
        (13, 99), (13, 139), (15, 43), (15, 59), (15, 77), (15, 99), (15, 139), (17, 43), (17, 59), (17, 77),
        (17, 99), (17, 139),
    ];
    if i < 32 {
        Some(table[i])
    } else {
        None
    }
}

/// The 40 Data Matrix sizes (height, width) offered, smallest capacity first.
pub open spec fn dm_entry(i: int) -> (i16, i16) {
    if i == 0 { (10, 10) } else if i == 1 { (12, 12) } else if i == 2 { (8, 18) } else if i == 3 { (14, 14) }
    else if i == 4 { (8, 32) } else if i == 5 { (16, 16) } else if i == 6 { (12, 26) } else if i == 7 { (18, 18) }
    else if i == 8 { (8, 48) } else if i == 9 { (20, 20) } else if i == 10 { (12, 36) } else if i == 11 { (8, 64) }
    else if i == 12 { (22, 22) } else if i == 13 { (16, 36) } else if i == 14 { (8, 80) } else if i == 15 { (24, 24) }
    else if i == 16 { (8, 96) } else if i == 17 { (12, 64) } else if i == 18 { (26, 26) } else if i == 19 { (20, 36) }
    else if i == 20 { (16, 48) } else if i == 21 { (8, 120) } else if i == 22 { (20, 44) } else if i == 23 { (32, 32) }
    else if i == 24 { (16, 64) } else if i == 25 { (8, 144) } else if i == 26 { (12, 88) } else if i == 27 { (26, 40) }
    else if i == 28 { (22, 48) } else if i == 29 { (24, 48) } else if i == 30 { (20, 64) } else if i == 31 { (36, 36) }
    else if i == 32 { (24, 64) } else if i == 33 { (26, 48) } else if i == 34 { (26, 64) } else if i == 35 { (40, 40) }
    else if i == 36 { (44, 44) } else if i == 37 { (48, 48) } else if i == 38 { (52, 52) } else { (64, 64) }
}

pub open spec fn dm_count() -> int {
    40
}

/// The Data Matrix size at catalogue position `i`.
pub fn dm_size(i: usize) -> (r: Option<(i16, i16)>)
    ensures
        r == if i < dm_count() { Some(dm_entry(i as int)) } else { None },
{
    let table: [(i16, i16); 40] = [
        (10, 10), (12, 12), (8, 18), (14, 14), (8, 32), (16, 16), (12, 26), (18, 18), (8, 48), (20, 20),
        (12, 36), (8, 64), (22, 22), (16, 36), (8, 80), (24, 24), (8, 96), (12, 64), (26, 26), (20, 36),
        (16, 48), (8, 120), (20, 44), (32, 32), (16, 64), (8, 144), (12, 88), (26, 40), (22, 48), (24, 48),
        (20, 64), (36, 36), (24, 64), (26, 48), (26, 64), (40, 40), (44, 44), (48, 48), (52, 52), (64, 64),
    ];
    if i < 40 {
        Some(table[i])
    } else {
        None
    }
}

/// A version the encoder accepts.
pub open spec fn valid_version(v: QrVersion) -> bool {
    match v {
        QrVersion::Normal(n) => 1 <= n <= 40,
        QrVersion::Micro(n) => 1 <= n <= 4,
        QrVersion::RectMicro(h, w) => 7 <= h <= 17 && 27 <= w <= 139,
    }
}

/// Width of a version in modules (without quiet zone).
pub open spec fn version_width(v: QrVersion) -> int {
    match v {
        QrVersion::Normal(n) => n * 4 + 17,
        QrVersion::Micro(n) => n * 2 + 9,
        QrVersion::RectMicro(_, w) => w as int,
    }
}

/// Height of a version in modules (without quiet zone).
pub open spec fn version_height(v: QrVersion) -> int {
    match v {
        QrVersion::RectMicro(h, _) => h as int,
        _ => version_width(v),
    }
}

/// Quiet zone around a symbol, in modules.
pub open spec fn quiet_zone_spec(v: QrVersion) -> int {
    match v {
        QrVersion::Normal(_) => 4,
        QrVersion::Micro(_) => 2,
        QrVersion::RectMicro(_, _) => 2,
    }
}

/// Quiet zone of a Data Matrix, in modules.
pub open spec fn dm_quiet_zone() -> int {
    1
}

fn quiet_zone(v: QrVersion) -> (q: i16)
    ensures
        q == quiet_zone_spec(v),
{
    match v {
        QrVersion::Normal(_) => 4,
        QrVersion::Micro(_) => 2,
        QrVersion::RectMicro(_, _) => 2,
    }
}

fn version_dims(v: QrVersion) -> (d: (i16, i16))
    requires
        valid_version(v),
    ensures
        d.0 == version_width(v),
        d.1 == version_height(v),
{
    match v {
        QrVersion::Normal(n) => (n * 4 + 17, n * 4 + 17),
        QrVersion::Micro(n) => (n * 2 + 9, n * 2 + 9),
        QrVersion::RectMicro(h, w) => (w, h),
    }
}

/// Whether the symbol with its quiet zone, at `scale` pixels per module, fits the label height.
pub open spec fn version_fits_spec(v: QrVersion, scale: int, label_height: int) -> bool {
    (version_height(v) + 2 * quiet_zone_spec(v)) * scale <= label_height
}

fn version_fits(v: QrVersion, scale: u32, label_height: u32) -> (b: bool)
    requires
        valid_version(v),
        1 <= scale <= 5,
    ensures
        b == version_fits_spec(v, scale as int, label_height as int),
{
    let (_, h) = version_dims(v);
    let qz = quiet_zone(v);
    assert(0 <= h + 2 * qz <= 185);
    let t: u32 = (h + 2 * qz) as u32;
    assert(t * scale <= 925) by (nonlinear_arith)
        requires
            t <= 185,
            scale <= 5,
    ;
    let total = t * scale;
    total <= label_height
}

// ---------------------------------------------------------------------------
// Encoders
// ---------------------------------------------------------------------------

/// The modules (row-major, `true` = dark) of the QR symbol that `qrcode2` builds for
/// `data` at the given version and level, or `None` when the data does not fit.
pub uninterp spec fn qr_symbol(data: Seq<u8>, version: QrVersion, ec: EcLevel) -> Option<Seq<bool>>;

/// Encodes with `qrcode2::QrCode::with_version` and reads the modules with
/// `QrCode::into_colors`. Trusted to return exactly `qr_symbol`; a symbol of
/// `qrcode2` holds `width * height` modules of its version.
#[verifier::external_body]
fn qr_encode(data: &[u8], version: QrVersion, ec: EcLevel) -> (res: Option<Vec<bool>>)
    requires
        valid_version(version),
    ensures
        res is Some <==> qr_symbol(data@, version, ec) is Some,
        res matches Some(m) ==> qr_symbol(data@, version, ec) == Some(m@),
        res matches Some(m) ==> m@.len() == version_width(version) * version_height(version),
{
    let v = match version {
        QrVersion::Normal(n) => qrcode2::Version::Normal(n),
        QrVersion::Micro(n) => qrcode2::Version::Micro(n),
        QrVersion::RectMicro(h, w) => qrcode2::Version::RectMicro(h, w),
    };
    let e = [qrcode2::EcLevel::L, qrcode2::EcLevel::M, qrcode2::EcLevel::Q, qrcode2::EcLevel::H][ec as usize];
    let code = qrcode2::QrCode::with_version(data, v, e).ok()?;
    Some(code.into_colors().into_iter().map(|c| c == qrcode2::Color::Dark).collect())
}

/// Whether `data` can be encoded at the given version and level.
pub open spec fn qr_encodes(data: Seq<u8>, version: QrVersion, ec: EcLevel) -> bool {
    qr_symbol(data, version, ec) is Some
}

/// The modules (row-major, `true` = dark) of the Data Matrix that `datamatrix`
/// builds for `data` in the symbol of `h` x `w` modules, or `None` when it does not fit.
pub uninterp spec fn dm_symbol(data: Seq<u8>, h: int, w: int) -> Option<Seq<bool>>;

/// Encodes with `datamatrix::DataMatrix::encode`, restricted to the one symbol
/// size of `h` x `w` modules (`SymbolList::enforce_height_in` / `enforce_width_in`),
/// and reads the modules with `DataMatrix::bitmap` and `Bitmap::bits`. Trusted to
/// return exactly `dm_symbol`; the bitmap of that symbol is `h` rows of `w` modules.
#[verifier::external_body]
fn dm_encode(data: &[u8], h: usize, w: usize) -> (res: Option<Vec<bool>>)
    requires
        exists|i: int| 0 <= i < dm_count() && #[trigger] dm_entry(i) == (h as i16, w as i16),
    ensures
        res is Some <==> dm_symbol(data@, h as int, w as int) is Some,
        res matches Some(m) ==> dm_symbol(data@, h as int, w as int) == Some(m@),
        res matches Some(m) ==> m@.len() == h * w,
{
    let sizes = datamatrix::SymbolList::with_extended_rectangles();
    let sizes = sizes.enforce_height_in(h..=h).enforce_width_in(w..=w);
    let code = datamatrix::DataMatrix::encode(data, sizes).ok()?;
    Some(code.bitmap().bits().to_vec())
}

/// Whether `data` fits the Data Matrix symbol of size `h` x `w`.
pub open spec fn dm_encodes(data: Seq<u8>, h: int, w: int) -> bool {
    dm_symbol(data, h, w) is Some
}


// ---------------------------------------------------------------------------
// Levels and capacities
// ---------------------------------------------------------------------------

/// The single character "1", the probe the level check encodes.
pub open spec fn probe_data() -> Seq<u8> {
    seq![0x31u8]
}

/// The levels of `ecs`, in order, at which the version can encode the probe.
pub open spec fn keep_supported(ecs: Seq<EcLevel>, v: QrVersion) -> Seq<EcLevel>
    decreases ecs.len(),
{
    if ecs.len() == 0 {
        Seq::<EcLevel>::empty()
    } else {
        keep_supported(ecs.drop_last(), v) + if qr_encodes(probe_data(), v, ecs.last()) {
            seq![ecs.last()]
        } else {
            Seq::<EcLevel>::empty()
        }
    }
}

pub open spec fn all_ec_levels() -> Seq<EcLevel> {
    seq![EcLevel::L, EcLevel::M, EcLevel::Q, EcLevel::H]
}

/// The levels, lowest first, that a version supports.
pub open spec fn supported_levels(v: QrVersion) -> Seq<EcLevel> {
    keep_supported(all_ec_levels(), v)
}

proof fn lemma_keep_supported_take(ecs: Seq<EcLevel>, v: QrVersion, i: int)
    requires
        0 <= i < ecs.len(),
    ensures
        keep_supported(ecs.take(i + 1), v) == keep_supported(ecs.take(i), v) + if qr_encodes(
            probe_data(),
            v,
            ecs[i],
        ) {
            seq![ecs[i]]
        } else {
            Seq::<EcLevel>::empty()
        },
{
    assert(ecs.take(i + 1).drop_last() =~= ecs.take(i));
}

/// The error correction levels at which `version` can hold the probe "1".
fn supported_ec_levels(version: QrVersion) -> (levels: Vec<EcLevel>)
    requires
        valid_version(version),
    ensures
        levels@ == supported_levels(version),
{
    let all: [EcLevel; 4] = [EcLevel::L, EcLevel::M, EcLevel::Q, EcLevel::H];
    assert(all@ == all_ec_levels());
    let probe: [u8; 1] = [0x31u8];
    assert(probe@ == probe_data());
    let mut levels: Vec<EcLevel> = Vec::new();
    for i in 0..4usize
        invariant
            valid_version(version),
            all@ == all_ec_levels(),
            probe@ == probe_data(),
            levels@ == keep_supported(all_ec_levels().take(i as int), version),
    {
        let ec = all[i];
        let ok = qr_encode(probe.as_slice(), version, ec).is_some();
        if ok {
            levels.push(ec);
        }
        proof {
            lemma_keep_supported_take(all_ec_levels(), version, i as int);
        }
    }
    assert(all_ec_levels().take(4) =~= all_ec_levels());
    levels
}

/// `r` is a boundary of `p` on `[0, upper]`: `r` is 0 or satisfies `p`, and `r`
/// is `upper` or `r + 1` does not satisfy `p`.
pub open spec fn is_boundary(p: spec_fn(int) -> bool, r: int, upper: int) -> bool {
    &&& 0 <= r <= upper
    &&& (r == 0 || p(r))
    &&& (r == upper || !p(r + 1))
}

/// When `p` holds for every count below one for which it holds (as the encoders'
/// capacity does), a boundary is the largest count in range satisfying `p`.
pub proof fn law_boundary_is_max(p: spec_fn(int) -> bool, r: int, upper: int)
    requires
        is_boundary(p, r, upper),
        forall|i: int, j: int| 1 <= i <= j <= upper && #[trigger] p(j) ==> #[trigger] p(i),
    ensures
        forall|n: int| 1 <= n <= upper ==> (#[trigger] p(n) <==> n <= r),
{
    assert forall|n: int| 1 <= n <= upper implies (#[trigger] p(n) <==> n <= r) by {
        if n <= r {
            assert(p(r));
        } else if p(n) {
            assert(p(r + 1));
        }
    }
}

/// `n` repetitions of `c` fit the version at the level.
pub open spec fn repeat_fits(v: QrVersion, ec: EcLevel, c: u8, n: int) -> bool {
    qr_encodes(Seq::new(n as nat, |i: int| c), v, ec)
}

/// Upper end of the capacity search per symbol family.
pub open spec fn capacity_upper(v: QrVersion) -> int {
    match v {
        QrVersion::Normal(_) => 4000,
        QrVersion::Micro(_) => 50,
        QrVersion::RectMicro(_, _) => 500,
    }
}

/// The test "`n` repetitions of `c` fit the version at the level".
pub open spec fn repeat_pred(v: QrVersion, ec: EcLevel, c: u8) -> spec_fn(int) -> bool {
    |n: int| repeat_fits(v, ec, c, n)
}

/// The capacity that the search of `max_capacity_for_mode` finds.
pub open spec fn mode_capacity(v: QrVersion, ec: EcLevel, c: u8) -> int {
    search_last(repeat_pred(v, ec, c), 0, capacity_upper(v))
}

/// Binary search for the capacity of a version in repetitions of `test_char`
/// (`'0'` numeric, `'A'` alphanumeric, `'a'` byte mode).
fn max_capacity_for_mode(version: QrVersion, ec: EcLevel, test_char: u8) -> (r: usize)
    requires
        valid_version(version),
    ensures
        is_boundary(|n: int| repeat_fits(version, ec, test_char, n), r as int, capacity_upper(version)),
        r == mode_capacity(version, ec, test_char),
{
    let upper: usize = match version {
        QrVersion::Normal(_) => 4000,
        QrVersion::Micro(_) => 50,
        QrVersion::RectMicro(_, _) => 500,
    };
    let mut lo: usize = 0;
    let mut hi: usize = upper;
    while lo < hi
        invariant
            valid_version(version),
            upper == capacity_upper(version),
            lo <= hi <= upper,
            lo == 0 || repeat_fits(version, ec, test_char, lo as int),
            hi == upper || !repeat_fits(version, ec, test_char, hi + 1),
            search_last(repeat_pred(version, ec, test_char), lo as int, hi as int) == mode_capacity(version, ec, test_char),
        decreases hi - lo,
    {
        let mid = (lo + hi + 1) / 2;
        let data: Vec<u8> = vec![test_char; mid];
        assert(data@ =~= Seq::new(mid as nat, |i: int| test_char));
        if qr_encode(data.as_slice(), version, ec).is_some() {
            lo = mid;
        } else {
            hi = mid - 1;
        }
    }
    lo
}

/// The first `n` bytes of `data` fit the version at the level.
pub open spec fn prefix_fits(data: Seq<u8>, v: QrVersion, ec: EcLevel, n: int) -> bool {
    qr_encodes(data.take(n), v, ec)
}

/// `r` is a boundary of the prefixes of `data` that fit (see `is_boundary`).
pub open spec fn prefix_boundary(data: Seq<u8>, v: QrVersion, ec: EcLevel, r: int) -> bool {
    is_boundary(|n: int| prefix_fits(data, v, ec, n), r, data.len() as int)
}

/// What a binary search for the last count in `lo..=hi` satisfying `p` returns:
/// it probes the upper middle, keeps the upper half (from the probe) where `p`
/// holds there and the lower half (below the probe) where it does not.
pub open spec fn search_last(p: spec_fn(int) -> bool, lo: int, hi: int) -> int
    decreases hi - lo,
{
    if lo >= hi {
        lo
    } else {
        let mid = (lo + hi + 1) / 2;
        if p(mid) {
            search_last(p, mid, hi)
        } else {
            search_last(p, lo, mid - 1)
        }
    }
}

proof fn lemma_search_last_found(p: spec_fn(int) -> bool, lo: int, hi: int)
    requires
        lo <= hi,
        lo < search_last(p, lo, hi),
    ensures
        p(search_last(p, lo, hi)),
    decreases hi - lo,
{
    if lo < hi {
        let mid = (lo + hi + 1) / 2;
        if p(mid) {
            lemma_search_last_bounds(p, mid, hi);
            if mid < search_last(p, mid, hi) {
                lemma_search_last_found(p, mid, hi);
            }
        } else {
            lemma_search_last_found(p, lo, mid - 1);
        }
    }
}

proof fn lemma_search_last_bounds(p: spec_fn(int) -> bool, lo: int, hi: int)
    requires
        lo <= hi,
    ensures
        lo <= search_last(p, lo, hi) <= hi,
    decreases hi - lo,
{
    if lo < hi {
        let mid = (lo + hi + 1) / 2;
        if p(mid) {
            lemma_search_last_bounds(p, mid, hi);
        } else {
            lemma_search_last_bounds(p, lo, mid - 1);
        }
    }
}

/// The test "the first `n` bytes of `data` fit the version at the level".
pub open spec fn prefix_pred(data: Seq<u8>, v: QrVersion, ec: EcLevel) -> spec_fn(int) -> bool {
    |n: int| prefix_fits(data, v, ec, n)
}

/// The prefix length that the search of `max_fitting_prefix` finds.
pub open spec fn longest_prefix(data: Seq<u8>, v: QrVersion, ec: EcLevel) -> int {
    search_last(prefix_pred(data, v, ec), 0, data.len() as int)
}

/// Binary search for the longest prefix of `data` that fits the version at the level.
fn max_fitting_prefix(data: &[u8], version: QrVersion, ec: EcLevel) -> (r: usize)
    requires
        valid_version(version),
    ensures
        prefix_boundary(data@, version, ec, r as int),
        r == longest_prefix(data@, version, ec),
{
    if data.len() == 0 {
        return 0;
    }
    let mut lo: usize = 0;
    let mut hi: usize = data.len();
    while lo < hi
        invariant
            valid_version(version),
            lo <= hi <= data@.len(),
            lo == 0 || prefix_fits(data@, version, ec, lo as int),
            hi == data@.len() || !prefix_fits(data@, version, ec, hi + 1),
            search_last(prefix_pred(data@, version, ec), lo as int, hi as int) == longest_prefix(data@, version, ec),
        decreases hi - lo,
    {
        let mid = lo + (hi - lo) / 2 + (hi - lo) % 2;
        let (prefix, _) = data.split_at(mid);
        assert(prefix@ =~= data@.take(mid as int));
        if qr_encode(prefix, version, ec).is_some() {
            lo = mid;
        } else {
            hi = mid - 1;
        }
    }
    lo
}

/// `n` zero bytes fit the Data Matrix symbol at catalogue position `idx`.
pub open spec fn dm_zeros_fit(idx: int, n: int) -> bool {
    dm_encodes(Seq::new(n as nat, |i: int| 0u8), dm_entry(idx).0 as int, dm_entry(idx).1 as int)
}

/// `r` is a capacity boundary of the Data Matrix symbol at `idx` (see `is_boundary`).
pub open spec fn dm_cap_boundary(idx: int, r: int) -> bool {
    is_boundary(|n: int| dm_zeros_fit(idx, n), r, dm_capacity_upper())
}

/// Upper end of the Data Matrix capacity search.
pub open spec fn dm_capacity_upper() -> int {
    2048
}

/// The test "`n` zero bytes fit the Data Matrix symbol at `idx`".
pub open spec fn dm_zeros_pred(idx: int) -> spec_fn(int) -> bool {
    |n: int| dm_zeros_fit(idx, n)
}

/// The capacity that the search of `dm_capacity` finds.
pub open spec fn dm_cap_value(idx: int) -> int {
    search_last(dm_zeros_pred(idx), 0, dm_capacity_upper())
}

/// The capacity, in bytes, of the Data Matrix symbol at catalogue position `idx`
/// (binary search over runs of zero bytes).
pub fn dm_capacity(idx: usize) -> (cap: usize)
    requires
        idx < dm_count(),
    ensures
        dm_cap_boundary(idx as int, cap as int),
        cap == dm_cap_value(idx as int),
{
    let (h, w) = match dm_size(idx) {
        Some(hw) => hw,
        None => (0, 0),
    };
    let mut lo: usize = 0;
    let mut hi: usize = 2048;
    while lo < hi
        invariant
            idx < dm_count(),
            (h, w) == dm_entry(idx as int),
            lo <= hi <= 2048,
            lo == 0 || dm_zeros_fit(idx as int, lo as int),
            hi == 2048 || !dm_zeros_fit(idx as int, hi + 1),
            search_last(dm_zeros_pred(idx as int), lo as int, hi as int) == dm_cap_value(idx as int),
        decreases hi - lo,
    {
        let mid = (lo + hi + 1) / 2;
        let data: Vec<u8> = vec![0u8; mid];
        assert(data@ =~= Seq::new(mid as nat, |i: int| 0u8));
        assert(dm_entry(idx as int) == (h as usize as i16, w as usize as i16));
        if dm_encode(data.as_slice(), h as usize, w as usize).is_some() {
            lo = mid;
        } else {
            hi = mid - 1;
        }
    }
    lo
}

// ---------------------------------------------------------------------------
// Rendering modules to a bitmap
// ---------------------------------------------------------------------------

/// Top margin that centers a symbol of `block_h` pixels on the label (none when it is taller).
pub open spec fn y_offset(block_h: int, label_height: int) -> int {
    if label_height >= block_h {
        (label_height - block_h) / 2
    } else {
        0
    }
}

/// Whether pixel `(x, y)` falls on a dark module of a symbol of `mod_w` x `mod_h`
/// modules, drawn at `scale` pixels per module after a quiet zone of `qz` modules,
/// `y_off` pixels from the top.
pub open spec fn on_dark_module(bits: Seq<bool>, mod_w: int, mod_h: int, qz: int, scale: int, y_off: int, x: int, y: int) -> bool {
    let mx = x / scale - qz;
    let my = (y - y_off) / scale - qz;
    &&& y >= y_off
    &&& 0 <= mx < mod_w
    &&& 0 <= my < mod_h
    &&& bits[my * mod_w + mx]
}

/// `bmp` shows the symbol `bits` (`mod_w` x `mod_h` modules, quiet zone `qz`) at
/// `scale` pixels per module, vertically centered on a label of `label_height` pixels.
pub open spec fn is_symbol_render(bmp: Bitmap1Bit, bits: Seq<bool>, mod_w: int, mod_h: int, qz: int, scale: int, label_height: int) -> bool {
    let block_w = (mod_w + 2 * qz) * scale;
    let block_h = (mod_h + 2 * qz) * scale;
    let y_off = y_offset(block_h, label_height);
    &&& bmp.width == block_w
    &&& bmp.height == label_height
    &&& forall|x: int, y: int| #[trigger] bmp.pixel(x, y) == (0 <= x < block_w && 0 <= y < label_height
        && on_dark_module(bits, mod_w, mod_h, qz, scale, y_off, x, y))
}

/// Where a rendered symbol puts each module: with `y_off` the top margin that
/// centers the symbol (none when it is taller than the label), the pixel `(x, y)`
/// is set exactly when it lies in the drawn area and the module at row
/// `(y - y_off) / scale - qz` and column `x / scale - qz` of the symbol is dark,
/// reading the row-major module list (entry `row * mod_w + column`).
pub proof fn law_module_placement(
    bmp: Bitmap1Bit,
    bits: Seq<bool>,
    mod_w: int,
    mod_h: int,
    qz: int,
    scale: int,
    label_height: int,
)
    requires
        is_symbol_render(bmp, bits, mod_w, mod_h, qz, scale, label_height),
    ensures
        ({
            let block_h = (mod_h + 2 * qz) * scale;
            let y_off = if label_height >= block_h {
                (label_height - block_h) / 2
            } else {
                0
            };
            forall|x: int, y: int| #[trigger] bmp.pixel(x, y) == (0 <= x < (mod_w + 2 * qz) * scale && 0 <= y
                < label_height && y >= y_off && 0 <= x / scale - qz < mod_w && 0 <= (y - y_off) / scale - qz < mod_h
                && bits[((y - y_off) / scale - qz) * mod_w + (x / scale - qz)])
        }),
{
}

/// Width in modules of version `v` with its quiet zone.
pub open spec fn version_block_w(v: QrVersion) -> int {
    version_width(v) + 2 * quiet_zone_spec(v)
}

/// The bitmap that `render_qr` would draw for these arguments fits the 32-bit
/// buffer arithmetic (nothing is drawn for empty data, an unknown family, version
/// or level, or a symbol taller than the label).
pub open spec fn render_qr_memory_ok(
    data: Seq<u8>,
    qr_type: Seq<char>,
    version_index: int,
    ec_str: Seq<char>,
    pixel_scale: int,
    label_height: int,
) -> bool {
    let scale = clamp_scale(pixel_scale);
    data.len() > 0 ==> match spec_qr_type(qr_type) {
        Some(QrType::DataMatrix) => dm_draw_fits(version_index, scale, label_height),
        t => match spec_resolve_version(t, version_index) {
            Ok(v) => spec_ec_from_str(ec_str) is Some && version_fits_spec(v, scale, label_height) ==> fits_bitmap(
                version_block_w(v) * scale,
                label_height,
            ),
            Err(_) => true,
        },
    }
}

/// Drawing the Data Matrix size `idx` at `scale`, where it fits the label, fits the
/// 32-bit buffer arithmetic.
pub open spec fn dm_draw_fits(idx: int, scale: int, label_height: int) -> bool {
    0 <= idx < dm_count() && (dm_entry(idx).0 + 2 * dm_quiet_zone()) * scale <= label_height ==> fits_bitmap(
        (dm_entry(idx).1 + 2 * dm_quiet_zone()) * scale,
        label_height,
    )
}

/// Drawing version `v` at the largest scale that fits the label fits the 32-bit
/// buffer arithmetic.
pub open spec fn qr_draw_fits(v: QrVersion, label_height: int) -> bool {
    let s = best_scale(version_block(v), label_height);
    s >= 1 ==> fits_bitmap(version_block_w(v) * s, label_height)
}

/// Any bitmap that `auto_render` could draw for these arguments fits the 32-bit
/// buffer arithmetic: that of each size or version of the family at the largest
/// scale that fits the label.
pub open spec fn auto_render_memory_ok(data: Seq<u8>, qr_type: Seq<char>, label_height: int) -> bool {
    data.len() > 0 ==> match spec_qr_type(qr_type) {
        Some(QrType::DataMatrix) => forall|j: int| 0 <= j < dm_count() ==> #[trigger] dm_draw_fits(
            j,
            best_scale(dm_entry(j).0 + 2 * dm_quiet_zone(), label_height),
            label_height,
        ),
        t => forall|i: int| 0 <= i < spec_all_versions(t).len() ==> #[trigger] qr_draw_fits(
            spec_all_versions(t)[i],
            label_height,
        ),
    }
}

/// Draws a symbol: each dark module becomes a `scale` x `scale` block.
fn render_modules(bits: &Vec<bool>, mod_w: u32, mod_h: u32, qz: u32, scale: u32, label_height: u32) -> (bmp: Bitmap1Bit)
    requires
        bits@.len() == mod_w * mod_h,
        mod_w + 2 * qz <= 185,
        mod_h + 2 * qz <= 185,
        1 <= scale <= 5,
        fits_bitmap((mod_w + 2 * qz) * scale, label_height as int),
    ensures
        bmp.wf(),
        bmp.clean(),
        is_symbol_render(bmp, bits@, mod_w as int, mod_h as int, qz as int, scale as int, label_height as int),
{
    assert((mod_w + 2 * qz) * scale <= 925) by (nonlinear_arith)
        requires
            mod_w + 2 * qz <= 185,
            scale <= 5,
    ;
    assert((mod_h + 2 * qz) * scale <= 925) by (nonlinear_arith)
        requires
            mod_h + 2 * qz <= 185,
            scale <= 5,
    ;
    let block_w = (mod_w + 2 * qz) * scale;
    let block_h = (mod_h + 2 * qz) * scale;
    let y_off = label_height.saturating_sub(block_h) / 2;
    assert(y_off == y_offset(block_h as int, label_height as int));
    let mut bmp = Bitmap1Bit::new(block_w, label_height);
    let ghost spec_bits = bits@;
    let nbits = bits.len();
    for y in 0..label_height
        invariant
            nbits == bits@.len(),
            bmp.wf(),
            bmp.clean(),
            bmp.width == block_w,
            bmp.height == label_height,
            spec_bits == bits@,
            bits@.len() == mod_w * mod_h,
            1 <= scale <= 5,
            block_w == (mod_w + 2 * qz) * scale,
            y_off == y_offset(block_h as int, label_height as int),
            forall|a: int, b: int| #[trigger] bmp.pixel(a, b) == (0 <= a < block_w && 0 <= b < label_height && b < y
                && on_dark_module(spec_bits, mod_w as int, mod_h as int, qz as int, scale as int, y_off as int, a, b)),
    {
        for x in 0..block_w
            invariant
                bmp.wf(),
                bmp.clean(),
                bmp.width == block_w,
                bmp.height == label_height,
                spec_bits == bits@,
                nbits == bits@.len(),
                bits@.len() == mod_w * mod_h,
                1 <= scale <= 5,
                y < label_height,
                block_w == (mod_w + 2 * qz) * scale,
                y_off == y_offset(block_h as int, label_height as int),
                forall|a: int, b: int| #[trigger] bmp.pixel(a, b) == (0 <= a < block_w && 0 <= b < label_height && (b < y
                    || (b == y && a < x)) && on_dark_module(
                    spec_bits,
                    mod_w as int,
                    mod_h as int,
                    qz as int,
                    scale as int,
                    y_off as int,
                    a,
                    b,
                )),
        {
            let mut dark = false;
            if y >= y_off {
                let ry = (y - y_off) / scale;
                let cx = x / scale;
                if ry >= qz && ry - qz < mod_h && cx >= qz && cx - qz < mod_w {
                    let my = ry - qz;
                    let mx = cx - qz;
                    proof {
                        assert(my * mod_w + mx < mod_w * mod_h) by (nonlinear_arith)
                            requires
                                my < mod_h,
                                mx < mod_w,
                        ;
                        assert(0 <= my * mod_w) by (nonlinear_arith)
                            requires
                                0 <= my,
                                0 <= mod_w,
                        ;
                    }
                    let idx = (my as usize) * (mod_w as usize) + (mx as usize);
                    dark = bits[idx];
                }
            }
            assert(dark == on_dark_module(spec_bits, mod_w as int, mod_h as int, qz as int, scale as int, y_off as int, x as int, y as int));
            if dark {
                bmp.set_pixel(x, y, true);
            }
        }
    }
    bmp
}

// ---------------------------------------------------------------------------
// Results
// ---------------------------------------------------------------------------

/// Capacity of one level, in characters of numeric (`n`), alphanumeric (`a`) and byte (`b`) data.
#[derive(Debug, Clone)]
pub struct QrCapacity {
    pub n: usize,
    pub a: usize,
    pub b: usize,
}

/// The capacity at one error correction level, named by the level.
#[derive(Debug, Clone)]
pub struct EcCapacity {
    pub level: String,
    pub capacity: QrCapacity,
}

/// One version that fits the label.
#[derive(Debug, Clone)]
pub struct QrVersionInfo {
    pub index: usize,
    pub label: String,
    pub modules_w: i16,
    pub modules_h: i16,
    pub quiet_zone: i16,
    pub ec_levels: Vec<String>,
    /// One entry per level of `ec_levels`, in the same order.
    pub capacity: Vec<EcCapacity>,
}

/// The versions of each family that fit a label height.
#[derive(Debug, Clone)]
pub struct QrCapabilities {
    pub label_height: u32,
    pub standard: Vec<QrVersionInfo>,
    pub micro: Vec<QrVersionInfo>,
    pub rmqr: Vec<QrVersionInfo>,
    pub datamatrix: Vec<QrVersionInfo>,
}

/// What a render chose.
#[derive(Debug, Clone)]
pub struct QrRenderInfo {
    pub qr_type: String,
    pub version_index: usize,
    pub version_label: String,
    pub ec_level: String,
    pub pixel_scale: u32,
}

/// Whether data fits a version, and how many characters would.
#[derive(Debug, Clone)]
pub struct ValidateResult {
    pub fits: bool,
    pub max_chars: usize,
}

#[derive(Debug)]
pub enum RenderError {
    EmptyData,
    InvalidType,
    InvalidVersion,
    InvalidEc,
    DoesNotFit,
    DataTooLong { max_chars: usize },
    EncodeFailed,
}

// ---------------------------------------------------------------------------
// Versions by name
// ---------------------------------------------------------------------------

/// The version a family name and index select.
pub open spec fn spec_resolve_version(t: Option<QrType>, index: int) -> Result<QrVersion, RenderError> {
    match t {
        Some(QrType::Standard) => if 1 <= index <= 40 {
            Ok(QrVersion::Normal(index as i16))
        } else {
            Err(RenderError::InvalidVersion)
        },
        Some(QrType::Micro) => if 1 <= index <= 4 {
            Ok(QrVersion::Micro(index as i16))
        } else {
            Err(RenderError::InvalidVersion)
        },
        Some(QrType::Rmqr) => if 0 <= index < rmqr_count() {
            Ok(QrVersion::RectMicro(rmqr_entry(index).0, rmqr_entry(index).1))
        } else {
            Err(RenderError::InvalidVersion)
        },
        _ => Err(RenderError::InvalidType),
    }
}

proof fn lemma_rmqr_entry_valid(i: int)
    requires
        0 <= i < rmqr_count(),
    ensures
        valid_version(QrVersion::RectMicro(rmqr_entry(i).0, rmqr_entry(i).1)),
{
}

proof fn lemma_dm_entry_bounds(i: int)
    requires
        0 <= i < dm_count(),
    ensures
        8 <= dm_entry(i).0 <= 64,
        10 <= dm_entry(i).1 <= 144,
{
}

fn resolve_version(qr_type: &str, index: usize) -> (r: Result<QrVersion, RenderError>)
    ensures
        r == spec_resolve_version(spec_qr_type(qr_type@), index as int),
        r matches Ok(v) ==> valid_version(v),
{
    match parse_qr_type(qr_type) {
        Some(QrType::Standard) => {
            if 1 <= index && index <= 40 {
                Ok(QrVersion::Normal(index as i16))
            } else {
                Err(RenderError::InvalidVersion)
            }
        },
        Some(QrType::Micro) => {
            if 1 <= index && index <= 4 {
                Ok(QrVersion::Micro(index as i16))
            } else {
                Err(RenderError::InvalidVersion)
            }
        },
        Some(QrType::Rmqr) => {
            match rmqr_size(index) {
                Some((h, w)) => {
                    proof {
                        lemma_rmqr_entry_valid(index as int);
                    }
                    Ok(QrVersion::RectMicro(h, w))
                },
                None => Err(RenderError::InvalidVersion),
            }
        },
        _ => Err(RenderError::InvalidType),
    }
}

/// The index a family reports for its `i`-th version (standard and Micro QR count from 1).
pub open spec fn spec_resolve_index(t: Option<QrType>, internal_idx: int) -> int {
    match t {
        Some(QrType::Standard) | Some(QrType::Micro) => internal_idx + 1,
        _ => internal_idx,
    }
}

fn resolve_index(qr_type: &str, internal_idx: usize) -> (r: usize)
    requires
        internal_idx < 40,
    ensures
        r == spec_resolve_index(spec_qr_type(qr_type@), internal_idx as int),
{
    match parse_qr_type(qr_type) {
        Some(QrType::Standard) | Some(QrType::Micro) => internal_idx + 1,
        _ => internal_idx,
    }
}

/// All versions of a family, in the order the automatic choice ranks them.
pub open spec fn spec_all_versions(t: Option<QrType>) -> Seq<QrVersion> {
    match t {
        Some(QrType::Standard) => Seq::new(40, |i: int| QrVersion::Normal((i + 1) as i16)),
        Some(QrType::Micro) => Seq::new(4, |i: int| QrVersion::Micro((i + 1) as i16)),
        Some(QrType::Rmqr) => Seq::new(32, |i: int| QrVersion::RectMicro(rmqr_entry(i).0, rmqr_entry(i).1)),
        _ => Seq::<QrVersion>::empty(),
    }
}

fn all_versions_for_type(qr_type: &str) -> (vs: Vec<QrVersion>)
    ensures
        vs@ == spec_all_versions(spec_qr_type(qr_type@)),
        forall|i: int| 0 <= i < vs@.len() ==> valid_version(#[trigger] vs@[i]),
{
    let t = parse_qr_type(qr_type);
    let mut vs: Vec<QrVersion> = Vec::new();
    let ghost target = spec_all_versions(t);
    let n: usize = match t {
        Some(QrType::Standard) => 40,
        Some(QrType::Micro) => 4,
        Some(QrType::Rmqr) => 32,
        _ => 0,
    };
    for i in 0..n
        invariant
            target == spec_all_versions(t),
            n == target.len(),
            t == spec_qr_type(qr_type@),
            vs@ == target.take(i as int),
            forall|k: int| 0 <= k < vs@.len() ==> valid_version(#[trigger] vs@[k]),
    {
        let v = match t {
            Some(QrType::Standard) => QrVersion::Normal((i + 1) as i16),
            Some(QrType::Micro) => QrVersion::Micro((i + 1) as i16),
            _ => {
                let (h, w) = match rmqr_size(i) {
                    Some(hw) => hw,
                    None => (7, 43),
                };
                proof {
                    lemma_rmqr_entry_valid(i as int);
                }
                QrVersion::RectMicro(h, w)
            },
        };
        assert(v == target[i as int]);
        assert(target.take(i + 1) =~= target.take(i as int).push(v));
        vs.push(v);
    }
    assert(target.take(n as int) =~= target);
    vs
}

/// The label of a version: `V<n>`, `M<n>` or `R<h>x<w>`.
pub open spec fn version_label_spec(v: QrVersion) -> Seq<char> {
    match v {
        QrVersion::Normal(n) => "V"@ + decimal(n as nat),
        QrVersion::Micro(n) => "M"@ + decimal(n as nat),
        QrVersion::RectMicro(h, w) => "R"@ + decimal(h as nat) + "x"@ + decimal(w as nat),
    }
}

fn version_label(v: QrVersion) -> (s: String)
    requires
        valid_version(v),
    ensures
        s@ == version_label_spec(v),
{
    match v {
        QrVersion::Normal(n) => "V".to_string().concat(decimal_string(n as u32).as_str()),
        QrVersion::Micro(n) => "M".to_string().concat(decimal_string(n as u32).as_str()),
        QrVersion::RectMicro(h, w) => "R".to_string().concat(decimal_string(h as u32).as_str()).concat(
            "x",
        ).concat(decimal_string(w as u32).as_str()),
    }
}

/// The label of a Data Matrix size: `<h>x<w>`.
pub open spec fn dm_label_spec(h: int, w: int) -> Seq<char> {
    decimal(h as nat) + "x"@ + decimal(w as nat)
}

fn dm_label(h: i16, w: i16) -> (s: String)
    requires
        h >= 0,
        w >= 0,
    ensures
        s@ == dm_label_spec(h as int, w as int),
{
    decimal_string(h as u32).concat("x").concat(decimal_string(w as u32).as_str())
}

/// `info` describes a render of the given family name, index, label, level name and scale.
pub open spec fn info_is(info: QrRenderInfo, qr_type: Seq<char>, index: int, label: Seq<char>, ec: Seq<char>, scale: int) -> bool {
    &&& info.qr_type@ == qr_type
    &&& info.version_index == index
    &&& info.version_label@ == label
    &&& info.ec_level@ == ec
    &&& info.pixel_scale == scale
}

/// The scale used for a requested one: clamped to 1..=5.
pub open spec fn clamp_scale(s: int) -> int {
    if s < 1 {
        1
    } else if s > 5 {
        5
    } else {
        s
    }
}

/// Outcome of a QR render at a fixed version and level.
pub open spec fn qr_render_ok(
    res: Result<(Bitmap1Bit, QrRenderInfo), RenderError>,
    data: Seq<u8>,
    v: QrVersion,
    ec: EcLevel,
    scale: int,
    label_height: int,
    qr_type: Seq<char>,
    index: int,
) -> bool {
    match qr_symbol(data, v, ec) {
        None => res matches Err(RenderError::DataTooLong { max_chars }) && prefix_boundary(data, v, ec, max_chars as int)
            && max_chars == longest_prefix(data, v, ec),
        Some(bits) => res matches Ok((bmp, info)) && bmp.wf() && bmp.clean() && is_symbol_render(
            bmp,
            bits,
            version_width(v),
            version_height(v),
            quiet_zone_spec(v),
            scale,
            label_height,
        ) && info_is(info, qr_type, index, version_label_spec(v), ec_name(ec), scale),
    }
}

/// Outcome of a Data Matrix render at a fixed size.
pub open spec fn dm_render_ok(
    res: Result<(Bitmap1Bit, QrRenderInfo), RenderError>,
    data: Seq<u8>,
    idx: int,
    scale: int,
    label_height: int,
) -> bool {
    let (h, w) = dm_entry(idx);
    match dm_symbol(data, h as int, w as int) {
        None => res matches Err(RenderError::DataTooLong { max_chars }) && dm_cap_boundary(idx, max_chars as int)
            && max_chars == dm_cap_value(idx),
        Some(bits) => res matches Ok((bmp, info)) && bmp.wf() && bmp.clean() && is_symbol_render(
            bmp,
            bits,
            w as int,
            h as int,
            dm_quiet_zone(),
            scale,
            label_height,
        ) && info_is(info, "datamatrix"@, idx, dm_label_spec(h as int, w as int), "ECC200"@, scale),
    }
}

fn render_code(bits: &Vec<bool>, v: QrVersion, scale: u32, label_height: u32) -> (bmp: Bitmap1Bit)
    requires
        valid_version(v),
        bits@.len() == version_width(v) * version_height(v),
        1 <= scale <= 5,
        fits_bitmap(version_block_w(v) * scale, label_height as int),
    ensures
        bmp.wf(),
        bmp.clean(),
        is_symbol_render(
            bmp,
            bits@,
            version_width(v),
            version_height(v),
            quiet_zone_spec(v),
            scale as int,
            label_height as int,
        ),
{
    let (w, h) = version_dims(v);
    let qz = quiet_zone(v);
    render_modules(bits, w as u32, h as u32, qz as u32, scale, label_height)
}

fn render_dm_manual(data: &[u8], size_index: usize, scale: u32, label_height: u32) -> (res: Result<
    (Bitmap1Bit, QrRenderInfo),
    RenderError,
>)
    requires
        1 <= scale <= 5,
        size_index < dm_count() && (dm_entry(size_index as int).0 + 2 * dm_quiet_zone()) * scale <= label_height
            ==> fits_bitmap((dm_entry(size_index as int).1 + 2 * dm_quiet_zone()) * scale, label_height as int),
    ensures
        size_index >= dm_count() ==> res matches Err(RenderError::InvalidVersion),
        size_index < dm_count() ==> {
            let (h, w) = dm_entry(size_index as int);
            if (h + 2 * dm_quiet_zone()) * scale > label_height {
                res matches Err(RenderError::DoesNotFit)
            } else {
                dm_render_ok(res, data@, size_index as int, scale as int, label_height as int)
            }
        },
{
    let (h, w) = match dm_size(size_index) {
        Some(hw) => hw,
        None => {
            return Err(RenderError::InvalidVersion);
        },
    };
    proof {
        lemma_dm_entry_bounds(size_index as int);
    }
    let hh: u32 = h as u32 + 2;
    assert(hh * scale <= 330) by (nonlinear_arith)
        requires
            hh <= 66,
            scale <= 5,
    ;
    let total_h = hh * scale;
    if total_h > label_height {
        return Err(RenderError::DoesNotFit);
    }
    match dm_encode(data, h as usize, w as usize) {
        None => {
            let cap = dm_capacity(size_index);
            Err(RenderError::DataTooLong { max_chars: cap })
        },
        Some(bits) => {
            let bmp = render_modules(&bits, w as u32, h as u32, 1, scale, label_height);
            let info = QrRenderInfo {
                qr_type: "datamatrix".to_string(),
                version_index: size_index,
                version_label: dm_label(h, w),
                ec_level: "ECC200".to_string(),
                pixel_scale: scale,
            };
            Ok((bmp, info))
        },
    }
}

/// What `render_qr` gives: `EmptyData` for empty data; for Data Matrix,
/// `InvalidVersion` past the table, `DoesNotFit` when the size at the clamped
/// scale is taller than the label, else the render of `dm_render_ok`; for the QR
/// families, the error of `spec_resolve_version`, `InvalidEc` for an unknown
/// level, `DoesNotFit` when the version is too tall, else `qr_render_ok`.
pub open spec fn render_qr_ok(
    res: Result<(Bitmap1Bit, QrRenderInfo), RenderError>,
    data: Seq<u8>,
    qr_type: Seq<char>,
    version_index: int,
    ec_str: Seq<char>,
    pixel_scale: int,
    label_height: int,
) -> bool {
    let scale = clamp_scale(pixel_scale);
    if data.len() == 0 {
        res matches Err(RenderError::EmptyData)
    } else if spec_qr_type(qr_type) == Some(QrType::DataMatrix) {
        if version_index >= dm_count() {
            res matches Err(RenderError::InvalidVersion)
        } else {
            let (h, w) = dm_entry(version_index);
            if (h + 2 * dm_quiet_zone()) * scale > label_height {
                res matches Err(RenderError::DoesNotFit)
            } else {
                dm_render_ok(res, data, version_index, scale, label_height)
            }
        }
    } else {
        match spec_resolve_version(spec_qr_type(qr_type), version_index) {
            Err(e) => res matches Err(e2) && e2 == e,
            Ok(v) => match spec_ec_from_str(ec_str) {
                None => res matches Err(RenderError::InvalidEc),
                Some(ec) => if !version_fits_spec(v, scale, label_height) {
                    res matches Err(RenderError::DoesNotFit)
                } else {
                    qr_render_ok(res, data, v, ec, scale, label_height, qr_type, version_index)
                },
            },
        }
    }
}

/// Renders a symbol of a chosen family, version, level and scale, vertically
/// centered on a label of `label_height` pixels.
pub fn render_qr(
    data: &[u8],
    qr_type: &str,
    version_index: usize,
    ec_str: &str,
    pixel_scale: u32,
    label_height: u32,
) -> (res: Result<(Bitmap1Bit, QrRenderInfo), RenderError>)
    requires
        render_qr_memory_ok(data@, qr_type@, version_index as int, ec_str@, pixel_scale as int, label_height as int),
    ensures
        render_qr_ok(res, data@, qr_type@, version_index as int, ec_str@, pixel_scale as int, label_height as int),
{
    if data.len() == 0 {
        return Err(RenderError::EmptyData);
    }
    let scale = if pixel_scale < 1 {
        1
    } else if pixel_scale > 5 {
        5
    } else {
        pixel_scale
    };
    if let Some(QrType::DataMatrix) = parse_qr_type(qr_type) {
        return render_dm_manual(data, version_index, scale, label_height);
    }
    let version = match resolve_version(qr_type, version_index) {
        Ok(v) => v,
        Err(e) => {
            return Err(e);
        },
    };
    let ec = match ec_from_str(ec_str) {
        Some(e) => e,
        None => {
            return Err(RenderError::InvalidEc);
        },
    };
    if !version_fits(version, scale, label_height) {
        return Err(RenderError::DoesNotFit);
    }
    match qr_encode(data, version, ec) {
        None => {
            let max = max_fitting_prefix(data, version, ec);
            Err(RenderError::DataTooLong { max_chars: max })
        },
        Some(bits) => {
            let bmp = render_code(&bits, version, scale, label_height);
            let info = QrRenderInfo {
                qr_type: qr_type.to_string(),
                version_index,
                version_label: version_label(version),
                ec_level: ec_to_str(ec).to_string(),
                pixel_scale: scale,
            };
            Ok((bmp, info))
        },
    }
}

/// `fits_bitmap(w, h)`, for a width of at most 925 pixels.
fn fits_bitmap_exec(w: u32, h: u32) -> (b: bool)
    requires
        w <= 925,
    ensures
        b == fits_bitmap(w as int, h as int),
{
    let rb: u64 = ((w as u64) + 7) / 8;
    assert(rb * (h as u64) <= 117 * 0xffff_ffffu64) by (nonlinear_arith)
        requires
            rb <= 117,
            h <= 0xffff_ffff,
    ;
    rb * (h as u64) <= u32::MAX as u64
}

/// Whether the bitmap `render_qr` would draw for these arguments fits the 32-bit
/// buffer arithmetic (`render_qr_memory_ok`, what `render_qr` requires).
pub fn render_qr_fits_memory(
    data: &[u8],
    qr_type: &str,
    version_index: usize,
    ec_str: &str,
    pixel_scale: u32,
    label_height: u32,
) -> (b: bool)
    ensures
        b == render_qr_memory_ok(data@, qr_type@, version_index as int, ec_str@, pixel_scale as int, label_height as int),
{
    if data.len() == 0 {
        return true;
    }
    let scale: u32 = if pixel_scale < 1 {
        1
    } else if pixel_scale > 5 {
        5
    } else {
        pixel_scale
    };
    if let Some(QrType::DataMatrix) = parse_qr_type(qr_type) {
        return match dm_size(version_index) {
            None => true,
            Some((h, w)) => {
                proof {
                    lemma_dm_entry_bounds(version_index as int);
                }
                let hh: u32 = h as u32 + 2;
                let ww: u32 = w as u32 + 2;
                assert(hh * scale <= 330 && ww * scale <= 730) by (nonlinear_arith)
                    requires
                        hh <= 66,
                        ww <= 146,
                        scale <= 5,
                ;
                if hh * scale > label_height {
                    true
                } else {
                    fits_bitmap_exec(ww * scale, label_height)
                }
            },
        };
    }
    match resolve_version(qr_type, version_index) {
        Err(_) => true,
        Ok(v) => {
            if ec_from_str(ec_str).is_none() || !version_fits(v, scale, label_height) {
                true
            } else {
                let (w, _) = version_dims(v);
                let qz = quiet_zone(v);
                let bw: u32 = (w + 2 * qz) as u32;
                assert(bw * scale <= 925) by (nonlinear_arith)
                    requires
                        bw <= 185,
                        scale <= 5,
                ;
                fits_bitmap_exec(bw * scale, label_height)
            }
        },
    }
}

/// Whether any bitmap `auto_render` could draw for these arguments fits the 32-bit
/// buffer arithmetic (`auto_render_memory_ok`, what `auto_render` requires).
pub fn auto_render_fits_memory(data: &[u8], qr_type: &str, label_height: u32) -> (b: bool)
    ensures
        b == auto_render_memory_ok(data@, qr_type@, label_height as int),
{
    if data.len() == 0 {
        return true;
    }
    let ghost lh = label_height as int;
    if let Some(QrType::DataMatrix) = parse_qr_type(qr_type) {
        for j in 0..40usize
            invariant
                lh == label_height,
                data@.len() > 0,
                spec_qr_type(qr_type@) == Some(QrType::DataMatrix),
                forall|k: int| 0 <= k < j ==> #[trigger] dm_draw_fits(
                    k,
                    best_scale(dm_entry(k).0 + 2 * dm_quiet_zone(), lh),
                    lh,
                ),
        {
            let (h, w) = match dm_size(j) {
                Some(hw) => hw,
                None => (0, 0),
            };
            proof {
                lemma_dm_entry_bounds(j as int);
            }
            let hh: u32 = h as u32 + 2;
            let ww: u32 = w as u32 + 2;
            let scale = best_scale_exec(hh, label_height);
            assert(ww * scale <= 730) by (nonlinear_arith)
                requires
                    ww <= 146,
                    scale <= 5,
            ;
            proof {
                lemma_best_scale_fits(hh as int, lh);
            }
            proof {
                assert((h, w) == dm_entry(j as int));
                assert(scale == best_scale(dm_entry(j as int).0 + 2 * dm_quiet_zone(), lh));
            }
            if scale >= 1 && !fits_bitmap_exec(ww * scale, label_height) {
                assert(!dm_draw_fits(j as int, best_scale(dm_entry(j as int).0 + 2 * dm_quiet_zone(), lh), lh));
                return false;
            }
            proof {
                if scale == 0 {
                    assert((w + 2 * dm_quiet_zone()) * scale == 0);
                    assert((0int + 7) / 8 == 0);
                    assert(0 * lh == 0);
                    assert(fits_bitmap(0, lh));
                }
            }
            assert(dm_draw_fits(j as int, best_scale(dm_entry(j as int).0 + 2 * dm_quiet_zone(), lh), lh));
        }
        return true;
    }
    let versions = all_versions_for_type(qr_type);
    let n = versions.len();
    for i in 0..n
        invariant
            lh == label_height,
            data@.len() > 0,
            spec_qr_type(qr_type@) != Some(QrType::DataMatrix),
            n == versions@.len(),
            versions@ == spec_all_versions(spec_qr_type(qr_type@)),
            forall|k: int| 0 <= k < versions@.len() ==> valid_version(#[trigger] versions@[k]),
            forall|k: int| 0 <= k < i ==> #[trigger] qr_draw_fits(versions@[k], lh),
    {
        let v = versions[i];
        let block = version_block_exec(v);
        let scale = best_scale_exec(block, label_height);
        let (w, _) = version_dims(v);
        let qz = quiet_zone(v);
        let bw: u32 = (w + 2 * qz) as u32;
        assert(bw * scale <= 925) by (nonlinear_arith)
            requires
                bw <= 185,
                scale <= 5,
        ;
        if scale >= 1 && !fits_bitmap_exec(bw * scale, label_height) {
            assert(!qr_draw_fits(versions@[i as int], lh));
            return false;
        }
    }
    true
}

/// Checks whether data fits a chosen version and level. Empty data always fits;
/// an unknown family, version or level never does.
pub fn validate(data: &[u8], qr_type: &str, version_index: usize, ec_str: &str) -> (r: ValidateResult)
    ensures
        data@.len() == 0 ==> r.fits && r.max_chars == 0,
        data@.len() > 0 && spec_qr_type(qr_type@) == Some(QrType::DataMatrix) ==> if version_index < dm_count() {
            &&& dm_cap_boundary(version_index as int, r.max_chars as int)
            &&& r.max_chars == dm_cap_value(version_index as int)
            &&& r.fits == (data@.len() <= r.max_chars)
        } else {
            !r.fits && r.max_chars == 0
        },
        data@.len() > 0 && spec_qr_type(qr_type@) != Some(QrType::DataMatrix) ==> match spec_resolve_version(
            spec_qr_type(qr_type@),
            version_index as int,
        ) {
            Err(_) => !r.fits && r.max_chars == 0,
            Ok(v) => match spec_ec_from_str(ec_str@) {
                None => !r.fits && r.max_chars == 0,
                Some(ec) => {
                    &&& r.fits == qr_encodes(data@, v, ec)
                    &&& r.fits ==> r.max_chars == data@.len()
                    &&& !r.fits ==> prefix_boundary(data@, v, ec, r.max_chars as int)
                    &&& !r.fits ==> r.max_chars == longest_prefix(data@, v, ec)
                },
            },
        },
{
    if data.len() == 0 {
        return ValidateResult { fits: true, max_chars: 0 };
    }
    if let Some(QrType::DataMatrix) = parse_qr_type(qr_type) {
        if version_index < 40 {
            let cap = dm_capacity(version_index);
            return ValidateResult { fits: data.len() <= cap, max_chars: cap };
        } else {
            return ValidateResult { fits: false, max_chars: 0 };
        }
    }
    let version = match resolve_version(qr_type, version_index) {
        Ok(v) => v,
        Err(_) => {
            return ValidateResult { fits: false, max_chars: 0 };
        },
    };
    let ec = match ec_from_str(ec_str) {
        Some(e) => e,
        None => {
            return ValidateResult { fits: false, max_chars: 0 };
        },
    };
    let fits = qr_encode(data, version, ec).is_some();
    let max_chars = if fits {
        data.len()
    } else {
        max_fitting_prefix(data, version, ec)
    };
    ValidateResult { fits, max_chars }
}

/// For a QR family, with a version that fits the label and a known level, the
/// data validates exactly when it renders; when it does not, both report the same
/// count, the longest prefix the search finds (`longest_prefix`), which is shorter
/// than the data.
pub proof fn law_validate_agrees_with_render(
    data: Seq<u8>,
    v: QrVersion,
    ec: EcLevel,
    scale: int,
    label_height: int,
    qr_type: Seq<char>,
    index: int,
    r: ValidateResult,
    res: Result<(Bitmap1Bit, QrRenderInfo), RenderError>,
)
    requires
        data.len() > 0,
        r.fits == qr_encodes(data, v, ec),
        !r.fits ==> r.max_chars == longest_prefix(data, v, ec),
        qr_render_ok(res, data, v, ec, scale, label_height, qr_type, index),
    ensures
        r.fits <==> res is Ok,
        !r.fits ==> (res matches Err(RenderError::DataTooLong { max_chars }) && max_chars == r.max_chars
            && max_chars < data.len()),
{
    if !r.fits {
        lemma_search_last_bounds(prefix_pred(data, v, ec), 0, data.len() as int);
        assert(data.take(data.len() as int) =~= data);
        if r.max_chars == data.len() {
            lemma_search_last_found(prefix_pred(data, v, ec), 0, data.len() as int);
            assert(prefix_fits(data, v, ec, data.len() as int));
        }
    }
}

// ---------------------------------------------------------------------------
// Automatic choice
// ---------------------------------------------------------------------------

/// The largest scale from 1 to 5 at which a symbol `block` modules tall fits the
/// label, or 0 when none does.
pub open spec fn best_scale(block: int, label_height: int) -> int {
    if block * 5 <= label_height {
        5
    } else if block * 4 <= label_height {
        4
    } else if block * 3 <= label_height {
        3
    } else if block * 2 <= label_height {
        2
    } else if block <= label_height {
        1
    } else {
        0
    }
}

proof fn lemma_best_scale_fits(block: int, label_height: int)
    ensures
        best_scale(block, label_height) >= 1 ==> block * best_scale(block, label_height) <= label_height,
        0 <= best_scale(block, label_height) <= 5,
{
    let s = best_scale(block, label_height);
    if s == 5 {
        assert(block * s == block * 5);
    } else if s == 4 {
        assert(block * s == block * 4);
    } else if s == 3 {
        assert(block * s == block * 3);
    } else if s == 2 {
        assert(block * s == block * 2);
    } else if s == 1 {
        assert(block * s == block);
    }
}

fn best_scale_exec(block: u32, label_height: u32) -> (s: u32)
    requires
        block <= 185,
    ensures
        s == best_scale(block as int, label_height as int),
{
    if block * 5 <= label_height {
        5
    } else if block * 4 <= label_height {
        4
    } else if block * 3 <= label_height {
        3
    } else if block * 2 <= label_height {
        2
    } else if block <= label_height {
        1
    } else {
        0
    }
}

/// Modules of a version's height including its quiet zone.
pub open spec fn version_block(v: QrVersion) -> int {
    version_height(v) + 2 * quiet_zone_spec(v)
}

/// Preference of an automatic choice: error correction first, then the earlier
/// (coarser) version, then the larger scale.
pub open spec fn auto_score(idx: int, ec: EcLevel, scale: int) -> int {
    ec_rank(ec) * 100000 + (500 - idx) * 100 + scale
}

/// Version `idx` of `versions` at level `ec` is a possible automatic choice.
pub open spec fn is_auto_candidate(data: Seq<u8>, versions: Seq<QrVersion>, label_height: int, idx: int, ec: EcLevel) -> bool {
    &&& 0 <= idx < versions.len()
    &&& supported_levels(versions[idx]).contains(ec)
    &&& qr_encodes(data, versions[idx], ec)
    &&& best_scale(version_block(versions[idx]), label_height) >= 1
}

pub open spec fn candidate_score(versions: Seq<QrVersion>, label_height: int, idx: int, ec: EcLevel) -> int {
    auto_score(idx, ec, best_scale(version_block(versions[idx]), label_height))
}

/// `(idx, ec)` is the candidate with the highest preference.
pub open spec fn is_auto_best(data: Seq<u8>, versions: Seq<QrVersion>, label_height: int, idx: int, ec: EcLevel) -> bool {
    &&& is_auto_candidate(data, versions, label_height, idx, ec)
    &&& forall|i: int, e: EcLevel| #[trigger] is_auto_candidate(data, versions, label_height, i, e)
        ==> candidate_score(versions, label_height, i, e) <= candidate_score(versions, label_height, idx, ec)
}

/// The scale of an automatic render is the largest from 1 to 5 at which the symbol,
/// `block` modules tall, fits the label (0 when none does).
pub proof fn law_best_scale_largest(block: int, label_height: int)
    requires
        block > 0,
    ensures
        0 <= best_scale(block, label_height) <= 5,
        best_scale(block, label_height) >= 1 ==> block * best_scale(block, label_height) <= label_height,
        best_scale(block, label_height) < 5 ==> block * (best_scale(block, label_height) + 1) > label_height,
{
    lemma_best_scale_fits(block, label_height);
    let s = best_scale(block, label_height);
    assert(block * (s + 1) == block * s + block) by (nonlinear_arith);
    if s == 0 {
        assert(block * 0 == 0);
    } else if s == 1 {
        assert(block * 1 == block);
    } else if s == 2 {
        assert(block * 2 == block + block);
    } else if s == 3 {
        assert(block * 3 == block + block + block);
    } else if s == 4 {
        assert(block * 4 == block + block + block + block);
    }
}

/// The automatic choice puts error correction first and the coarsest version
/// second: no candidate (data encodes, level supported, symbol fits at some scale)
/// has a stronger level than the chosen one, and none with the same level has an
/// earlier version.
pub proof fn law_auto_choice_order(data: Seq<u8>, versions: Seq<QrVersion>, label_height: int, idx: int, ec: EcLevel)
    requires
        versions.len() <= 40,
        is_auto_best(data, versions, label_height, idx, ec),
    ensures
        ec_rank(EcLevel::L) < ec_rank(EcLevel::M) < ec_rank(EcLevel::Q) < ec_rank(EcLevel::H),
        forall|i: int, e: EcLevel| #[trigger] is_auto_candidate(data, versions, label_height, i, e) ==> ec_rank(e) <= ec_rank(ec)
            && (ec_rank(e) == ec_rank(ec) ==> idx <= i),
{
    lemma_best_scale_fits(version_block(versions[idx]), label_height);
    assert forall|i: int, e: EcLevel| #[trigger] is_auto_candidate(data, versions, label_height, i, e) implies ec_rank(e)
        <= ec_rank(ec) && (ec_rank(e) == ec_rank(ec) ==> idx <= i) by {
        lemma_best_scale_fits(version_block(versions[i]), label_height);
        assert(candidate_score(versions, label_height, i, e) <= candidate_score(versions, label_height, idx, ec));
    }
}

/// What the longest-prefix fallback may report for a QR family: at most the data,
/// and either nothing or a prefix that some fitting version holds at level L or M.
pub open spec fn prefix_any_ok_qr(data: Seq<u8>, versions: Seq<QrVersion>, label_height: int, r: int) -> bool {
    &&& 0 <= r <= data.len()
    &&& (r == 0 || exists|i: int, ec: EcLevel| 0 <= i < versions.len() && (ec == EcLevel::L || ec == EcLevel::M)
        && version_fits_spec(versions[i], 1, label_height) && #[trigger] prefix_fits(data, versions[i], ec, r))
}

/// Whether the Data Matrix symbol at `idx` fits the label height at scale 1.
pub open spec fn dm_fits_height(idx: int, label_height: int) -> bool {
    dm_entry(idx).0 + 2 * dm_quiet_zone() <= label_height
}

/// What the longest-prefix fallback may report for Data Matrix: at most the data,
/// and either nothing or all of it or the capacity of some fitting size.
pub open spec fn prefix_any_ok_dm(data: Seq<u8>, label_height: int, r: int) -> bool {
    &&& 0 <= r <= data.len()
    &&& (r == 0 || r == data.len() || exists|i: int| 0 <= i < dm_count() && dm_fits_height(i, label_height)
        && #[trigger] dm_cap_boundary(i, r))
}

/// The largest capacity (`dm_cap_value`) among the Data Matrix sizes before `k`
/// that fit the label at scale 1, or 0 when none does.
pub open spec fn dm_best_upto(label_height: int, k: int) -> int
    decreases k,
{
    if k <= 0 {
        0
    } else {
        let b = dm_best_upto(label_height, k - 1);
        if dm_fits_height(k - 1, label_height) && dm_cap_value(k - 1) > b {
            dm_cap_value(k - 1)
        } else {
            b
        }
    }
}

/// The most data that some Data Matrix size fitting the label holds: the largest
/// capacity of the sizes that fit at scale 1, but no more than the data.
fn max_fitting_prefix_dm(data: &[u8], label_height: u32) -> (r: usize)
    ensures
        prefix_any_ok_dm(data@, label_height as int, r as int),
        r == if dm_best_upto(label_height as int, dm_count()) < data@.len() {
            dm_best_upto(label_height as int, dm_count())
        } else {
            data@.len() as int
        },
{
    let mut best: usize = 0;
    for idx in 0..40usize
        invariant
            best == 0 || exists|i: int| 0 <= i < dm_count() && dm_fits_height(i, label_height as int)
                && #[trigger] dm_cap_boundary(i, best as int),
            best == dm_best_upto(label_height as int, idx as int),
    {
        let (h, _) = match dm_size(idx) {
            Some(hw) => hw,
            None => (0, 0),
        };
        proof {
            lemma_dm_entry_bounds(idx as int);
        }
        let total_h = h as u32 + 2;
        if total_h <= label_height {
            let cap = dm_capacity(idx);
            if cap > best {
                best = cap;
            }
        }
    }
    if best < data.len() {
        best
    } else {
        data.len()
    }
}

/// The largest `longest_prefix` at level L or M among the versions from `k` on
/// that fit the label at scale 1, or 0 when none does.
pub open spec fn qr_best_from(data: Seq<u8>, vs: Seq<QrVersion>, label_height: int, k: int) -> int
    decreases vs.len() - k,
{
    if k < 0 || k >= vs.len() {
        0
    } else {
        let rest = qr_best_from(data, vs, label_height, k + 1);
        if version_fits_spec(vs[k], 1, label_height) {
            let l = longest_prefix(data, vs[k], EcLevel::L);
            let m = longest_prefix(data, vs[k], EcLevel::M);
            let a = if l > rest {
                l
            } else {
                rest
            };
            if m > a {
                m
            } else {
                a
            }
        } else {
            rest
        }
    }
}

proof fn lemma_qr_best_from(data: Seq<u8>, vs: Seq<QrVersion>, label_height: int, j: int, k: int)
    requires
        0 <= j <= k <= vs.len(),
    ensures
        0 <= qr_best_from(data, vs, label_height, j) <= data.len(),
        qr_best_from(data, vs, label_height, k) <= qr_best_from(data, vs, label_height, j),
    decreases vs.len() - j,
{
    if j < vs.len() {
        lemma_qr_best_from(data, vs, label_height, j + 1, if k == j { j + 1 } else { k });
        lemma_search_last_bounds(prefix_pred(data, vs[j], EcLevel::L), 0, data.len() as int);
        lemma_search_last_bounds(prefix_pred(data, vs[j], EcLevel::M), 0, data.len() as int);
    }
}

/// The most data that some version of the family fitting the label holds at level
/// L or M (`qr_best_from`), or that of `max_fitting_prefix_dm` for Data Matrix.
fn max_fitting_prefix_any(data: &[u8], qr_type: &str, label_height: u32) -> (r: usize)
    ensures
        spec_qr_type(qr_type@) == Some(QrType::DataMatrix) ==> prefix_any_ok_dm(data@, label_height as int, r as int),
        spec_qr_type(qr_type@) == Some(QrType::DataMatrix) ==> r == if dm_best_upto(label_height as int, dm_count())
            < data@.len() {
            dm_best_upto(label_height as int, dm_count())
        } else {
            data@.len() as int
        },
        spec_qr_type(qr_type@) != Some(QrType::DataMatrix) ==> prefix_any_ok_qr(
            data@,
            spec_all_versions(spec_qr_type(qr_type@)),
            label_height as int,
            r as int,
        ),
        spec_qr_type(qr_type@) != Some(QrType::DataMatrix) ==> r == qr_best_from(
            data@,
            spec_all_versions(spec_qr_type(qr_type@)),
            label_height as int,
            0,
        ),
{
    if let Some(QrType::DataMatrix) = parse_qr_type(qr_type) {
        return max_fitting_prefix_dm(data, label_height);
    }
    let versions = all_versions_for_type(qr_type);
    let ghost vs = versions@;
    let mut best: usize = 0;
    let n = versions.len();
    let mut k: usize = n;
    while k > 0
        invariant
            vs == versions@,
            vs == spec_all_versions(spec_qr_type(qr_type@)),
            forall|i: int| 0 <= i < vs.len() ==> valid_version(#[trigger] vs[i]),
            n == vs.len(),
            k <= n,
            prefix_any_ok_qr(data@, vs, label_height as int, best as int),
            best == qr_best_from(data@, vs, label_height as int, k as int),
        decreases k,
    {
        k = k - 1;
        let version = versions[k];
        proof {
            lemma_qr_best_from(data@, vs, label_height as int, 0, k as int);
            lemma_qr_best_from(data@, vs, label_height as int, k + 1, k + 1);
        }
        if version_fits(version, 1, label_height) {
            let l = max_fitting_prefix(data, version, EcLevel::L);
            if l > best {
                best = l;
                assert(prefix_fits(data@, vs[k as int], EcLevel::L, best as int));
            }
            if best >= data.len() {
                return best;
            }
            let m = max_fitting_prefix(data, version, EcLevel::M);
            if m > best {
                best = m;
                assert(prefix_fits(data@, vs[k as int], EcLevel::M, best as int));
            }
            if best >= data.len() {
                return best;
            }
        }
    }
    best
}

fn version_block_exec(v: QrVersion) -> (b: u32)
    requires
        valid_version(v),
    ensures
        b == version_block(v),
        b <= 185,
{
    let (_, h) = version_dims(v);
    let qz = quiet_zone(v);
    (h + 2 * qz) as u32
}

/// Outcome of the automatic choice once `(idx, ec)` is chosen.
pub open spec fn auto_render_ok(
    res: Result<(Bitmap1Bit, QrRenderInfo), RenderError>,
    data: Seq<u8>,
    versions: Seq<QrVersion>,
    label_height: int,
    idx: int,
    ec: EcLevel,
    qr_type: Seq<char>,
) -> bool {
    let v = versions[idx];
    let scale = best_scale(version_block(v), label_height);
    match qr_symbol(data, v, ec) {
        Some(bits) => res matches Ok((bmp, info)) && bmp.wf() && bmp.clean() && is_symbol_render(
            bmp,
            bits,
            version_width(v),
            version_height(v),
            quiet_zone_spec(v),
            scale,
            label_height,
        ) && info_is(
            info,
            qr_type,
            spec_resolve_index(spec_qr_type(qr_type), idx),
            version_label_spec(v),
            ec_name(ec),
            scale,
        ),
        None => false,
    }
}

/// The Data Matrix symbol at `idx` is chosen when the data is no longer than its
/// capacity `cap` and it fits the label; every earlier size was too small or too tall.
pub open spec fn dm_auto_choice(data: Seq<u8>, label_height: int, idx: int, cap: int) -> bool {
    &&& 0 <= idx < dm_count()
    &&& dm_cap_boundary(idx, cap)
    &&& cap == dm_cap_value(idx)
    &&& data.len() <= cap
    &&& best_scale(dm_entry(idx).0 + 2 * dm_quiet_zone(), label_height) >= 1
    &&& forall|j: int| 0 <= j < idx ==> dm_rejected(data, label_height, j)
}

/// The Data Matrix size at `j` was passed over: too tall, or its capacity is below the data.
pub open spec fn dm_rejected(data: Seq<u8>, label_height: int, j: int) -> bool {
    best_scale(dm_entry(j).0 + 2 * dm_quiet_zone(), label_height) == 0 || data.len() > dm_cap_value(j)
}

/// Outcome of the automatic Data Matrix choice.
pub open spec fn dm_auto_ok(res: Result<(Bitmap1Bit, QrRenderInfo), RenderError>, data: Seq<u8>, label_height: int) -> bool {
    ||| exists|idx: int, cap: int| #[trigger] dm_auto_choice(data, label_height, idx, cap) && {
        let (h, w) = dm_entry(idx);
        let scale = best_scale(h + 2 * dm_quiet_zone(), label_height);
        match dm_symbol(data, h as int, w as int) {
            Some(bits) => res matches Ok((bmp, info)) && bmp.wf() && bmp.clean() && is_symbol_render(
                bmp,
                bits,
                w as int,
                h as int,
                dm_quiet_zone(),
                scale,
                label_height,
            ) && info_is(info, "datamatrix"@, idx, dm_label_spec(h as int, w as int), "ECC200"@, scale),
            None => res matches Err(RenderError::EncodeFailed),
        }
    }
    ||| (forall|j: int| 0 <= j < dm_count() ==> #[trigger] dm_rejected(data, label_height, j)) && (
    res matches Err(RenderError::DataTooLong { max_chars }) && prefix_any_ok_dm(
        data,
        label_height,
        max_chars as int,
    ) && max_chars == if dm_best_upto(label_height, dm_count()) < data.len() {
        dm_best_upto(label_height, dm_count())
    } else {
        data.len() as int
    })
}

fn auto_render_dm(data: &[u8], label_height: u32) -> (res: Result<(Bitmap1Bit, QrRenderInfo), RenderError>)
    requires
        forall|j: int| 0 <= j < dm_count() ==> #[trigger] dm_draw_fits(
            j,
            best_scale(dm_entry(j).0 + 2 * dm_quiet_zone(), label_height as int),
            label_height as int,
        ),
    ensures
        dm_auto_ok(res, data@, label_height as int),
{
    let mut best: Option<(u32, usize, u32)> = None;
    let ghost mut caps: Seq<int> = Seq::empty();
    let ghost lh = label_height as int;
    for idx in 0..40usize
        invariant
            caps.len() == idx,
            lh == label_height,
            forall|j: int| 0 <= j < idx ==> dm_cap_boundary(j, #[trigger] caps[j]) && caps[j] == dm_cap_value(j),
            best is None ==> forall|j: int| 0 <= j < idx ==> #[trigger] dm_rejected(data@, lh, j),
            best matches Some(b) ==> {
                &&& b.1 < idx
                &&& dm_auto_choice(data@, lh, b.1 as int, caps[b.1 as int])
                &&& b.2 == best_scale(dm_entry(b.1 as int).0 + 2 * dm_quiet_zone(), lh)
                &&& b.0 == (500 - b.1) * 100 + b.2
            },
    {
        let cap = dm_capacity(idx);
        let ghost old_caps = caps;
        proof {
            caps = caps.push(cap as int);
            assert forall|j: int| 0 <= j < idx + 1 implies dm_cap_boundary(j, #[trigger] caps[j]) && caps[j] == dm_cap_value(j) by {
                if j < idx {
                    assert(caps[j] == old_caps[j]);
                }
            }
        }
        let (h, _) = match dm_size(idx) {
            Some(hw) => hw,
            None => (0, 0),
        };
        proof {
            lemma_dm_entry_bounds(idx as int);
        }
        let scale = best_scale_exec(h as u32 + 2, label_height);
        if data.len() > cap || scale == 0 {
            proof {
                if data.len() > cap {
                    assert(dm_cap_boundary(idx as int, caps[idx as int]));
                }
                assert(dm_rejected(data@, lh, idx as int));
            }
        } else {
            let score = (500 - idx as u32) * 100 + scale;
            let replace = match best {
                None => true,
                Some(b) => score > b.0,
            };
            if replace {
                proof {
                    assert forall|j: int| 0 <= j < idx implies #[trigger] dm_rejected(data@, lh, j) by {
                        if let Some(b) = best {
                            assert(b.1 < idx);
                            assert((500 - b.1) * 100 + b.2 >= (500 - idx) * 100 + 100);
                        }
                    }
                    assert(dm_auto_choice(data@, lh, idx as int, caps[idx as int]));
                }
                best = Some((score, idx, scale));
            }
        }
    }
    match best {
        Some((_, idx, scale)) => {
            let (h, w) = match dm_size(idx) {
                Some(hw) => hw,
                None => (0, 0),
            };
            proof {
                lemma_dm_entry_bounds(idx as int);
                assert(dm_auto_choice(data@, lh, idx as int, caps[idx as int]));
                assert(dm_draw_fits(idx as int, best_scale(dm_entry(idx as int).0 + 2 * dm_quiet_zone(), lh), lh));
                assert((h, w) == dm_entry(idx as int));
                assert(scale == best_scale(dm_entry(idx as int).0 + 2 * dm_quiet_zone(), lh));
                lemma_best_scale_fits(h + 2 * dm_quiet_zone(), lh);
                assert((h + 2 * dm_quiet_zone()) * scale <= lh);
                assert(fits_bitmap((w + 2 * dm_quiet_zone()) * scale, lh));
            }
            match dm_encode(data, h as usize, w as usize) {
                None => Err(RenderError::EncodeFailed),
                Some(bits) => {
                    let bmp = render_modules(&bits, w as u32, h as u32, 1, scale, label_height);
                    let info = QrRenderInfo {
                        qr_type: "datamatrix".to_string(),
                        version_index: idx,
                        version_label: dm_label(h, w),
                        ec_level: "ECC200".to_string(),
                        pixel_scale: scale,
                    };
                    Ok((bmp, info))
                },
            }
        },
        None => {
            let max = max_fitting_prefix_dm(data, label_height);
            Err(RenderError::DataTooLong { max_chars: max })
        },
    }
}

/// The Data Matrix sizes of `idxs` that fit a label `label_height` pixels tall at
/// scale 1, in order.
pub open spec fn dm_refit(idxs: Seq<int>, label_height: int) -> Seq<int>
    decreases idxs.len(),
{
    if idxs.len() == 0 {
        Seq::<int>::empty()
    } else {
        dm_refit(idxs.drop_last(), label_height) + if dm_fits_height(idxs.last(), label_height) {
            seq![idxs.last()]
        } else {
            Seq::<int>::empty()
        }
    }
}

/// A taller label never loses a symbol size: the versions `capabilities` lists
/// for a label of height `h1` (`kept`, see `infos_ok`) are those it lists for a
/// taller one `h2` that also fit `h1`, in the same order; likewise the Data Matrix
/// sizes (`dm_kept`).
pub proof fn law_capabilities_monotone(cands: Seq<(int, QrVersion)>, n: int, h1: int, h2: int)
    requires
        h1 <= h2,
    ensures
        kept(cands, h1) == kept(kept(cands, h2), h1),
        dm_kept(n, h1) == dm_refit(dm_kept(n, h2), h1),
    decreases cands.len() + if n > 0 { n } else { 0 },
{
    if cands.len() > 0 {
        law_capabilities_monotone(cands.drop_last(), 0, h1, h2);
        let k2 = kept(cands.drop_last(), h2);
        let c = cands.last();
        if keeps(c, h2) {
            assert(k2.push(c).drop_last() =~= k2);
            assert(k2 + seq![c] =~= k2.push(c));
        } else {
            assert(k2 + Seq::<(int, QrVersion)>::empty() =~= k2);
        }
    }
    if n > 0 {
        law_capabilities_monotone(Seq::<(int, QrVersion)>::empty(), n - 1, h1, h2);
        let d2 = dm_kept(n - 1, h2);
        if dm_fits_height(n - 1, h2) {
            assert(d2.push(n - 1).drop_last() =~= d2);
            assert(d2 + seq![n - 1] =~= d2.push(n - 1));
        } else {
            assert(d2 + Seq::<int>::empty() =~= d2);
        }
    }
}

/// Rendering by hand with what `auto_render` reports (the version index in
/// `render_qr`'s numbering, the level's name and the scale) gives the same symbol
/// and the same report, for the QR families.
pub proof fn law_render_reproduces_auto(
    data: Seq<u8>,
    qr_type: Seq<char>,
    label_height: int,
    i: int,
    e: EcLevel,
    res_auto: Result<(Bitmap1Bit, QrRenderInfo), RenderError>,
    res_manual: Result<(Bitmap1Bit, QrRenderInfo), RenderError>,
)
    requires
        data.len() > 0,
        spec_qr_type(qr_type) != Some(QrType::DataMatrix),
        is_auto_candidate(data, spec_all_versions(spec_qr_type(qr_type)), label_height, i, e),
        auto_render_ok(res_auto, data, spec_all_versions(spec_qr_type(qr_type)), label_height, i, e, qr_type),
        render_qr_ok(
            res_manual,
            data,
            qr_type,
            spec_resolve_index(spec_qr_type(qr_type), i),
            ec_name(e),
            best_scale(version_block(spec_all_versions(spec_qr_type(qr_type))[i]), label_height),
            label_height,
        ),
    ensures
        res_auto matches Ok((b1, info1)) && res_manual matches Ok((b2, info2)) && b1.width == b2.width && b1.height
            == b2.height && b1.data@ == b2.data@ && info1.qr_type@ == info2.qr_type@ && info1.version_index
            == info2.version_index && info1.version_label@ == info2.version_label@ && info1.ec_level@
            == info2.ec_level@ && info1.pixel_scale == info2.pixel_scale,
{
    let t = spec_qr_type(qr_type);
    let vs = spec_all_versions(t);
    let v = vs[i];
    let scale = best_scale(version_block(v), label_height);
    lemma_best_scale_fits(version_block(v), label_height);
    assert(clamp_scale(scale) == scale);
    reveal_strlit("L");
    reveal_strlit("M");
    reveal_strlit("Q");
    reveal_strlit("H");
    assert("L"@[0] == 'L' && "M"@[0] == 'M' && "Q"@[0] == 'Q' && "H"@[0] == 'H');
    assert("L"@ != "M"@ && "L"@ != "Q"@ && "L"@ != "H"@ && "M"@ != "Q"@ && "M"@ != "H"@ && "Q"@ != "H"@);
    assert(spec_ec_from_str(ec_name(e)) == Some(e));
    assert(spec_resolve_version(t, spec_resolve_index(t, i)) == Ok::<QrVersion, RenderError>(v));
    assert(version_fits_spec(v, scale, label_height));
    if let (Ok((b1, _)), Ok((b2, _))) = (res_auto, res_manual) {
        assert forall|x: int, y: int| #[trigger] b1.pixel(x, y) == b2.pixel(x, y) by {
        }
        crate::engine::bitmap::lemma_same_pixels_same_data(b1, b2);
    }
}

/// Rendering by hand with the size index and scale that `auto_render` reports
/// gives the same Data Matrix symbol and the same report.
pub proof fn law_render_reproduces_auto_dm(
    data: Seq<u8>,
    qr_type: Seq<char>,
    ec_str: Seq<char>,
    label_height: int,
    res_auto: Result<(Bitmap1Bit, QrRenderInfo), RenderError>,
    res_manual: Result<(Bitmap1Bit, QrRenderInfo), RenderError>,
)
    requires
        data.len() > 0,
        spec_qr_type(qr_type) == Some(QrType::DataMatrix),
        dm_auto_ok(res_auto, data, label_height),
        res_auto matches Ok((_, info)) && render_qr_ok(
            res_manual,
            data,
            qr_type,
            info.version_index as int,
            ec_str,
            info.pixel_scale as int,
            label_height,
        ),
    ensures
        res_auto matches Ok((b1, info1)) && res_manual matches Ok((b2, info2)) && b1.width == b2.width && b1.height
            == b2.height && b1.data@ == b2.data@ && info1.qr_type@ == info2.qr_type@ && info1.version_index
            == info2.version_index && info1.version_label@ == info2.version_label@ && info1.ec_level@
            == info2.ec_level@ && info1.pixel_scale == info2.pixel_scale,
{
    let (idx, cap) = choose|idx: int, cap: int| #[trigger] dm_auto_choice(data, label_height, idx, cap) && {
        let (h, w) = dm_entry(idx);
        let scale = best_scale(h + 2 * dm_quiet_zone(), label_height);
        match dm_symbol(data, h as int, w as int) {
            Some(bits) => res_auto matches Ok((bmp, info)) && bmp.wf() && bmp.clean() && is_symbol_render(
                bmp,
                bits,
                w as int,
                h as int,
                dm_quiet_zone(),
                scale,
                label_height,
            ) && info_is(info, "datamatrix"@, idx, dm_label_spec(h as int, w as int), "ECC200"@, scale),
            None => res_auto matches Err(RenderError::EncodeFailed),
        }
    };
    let (h, w) = dm_entry(idx);
    let scale = best_scale(h + 2 * dm_quiet_zone(), label_height);
    lemma_best_scale_fits(h + 2 * dm_quiet_zone(), label_height);
    assert(clamp_scale(scale) == scale);
    if let (Ok((b1, _)), Ok((b2, _))) = (res_auto, res_manual) {
        assert forall|x: int, y: int| #[trigger] b1.pixel(x, y) == b2.pixel(x, y) by {
        }
        crate::engine::bitmap::lemma_same_pixels_same_data(b1, b2);
    }
}

/// Picks the family's best version, level and scale for the data and renders it:
/// the highest error correction level first, then the earliest (coarsest) version,
/// then the largest scale up to 5 that fits the label.
pub fn auto_render(data: &[u8], qr_type: &str, label_height: u32) -> (res: Result<
    (Bitmap1Bit, QrRenderInfo),
    RenderError,
>)
    requires
        auto_render_memory_ok(data@, qr_type@, label_height as int),
    ensures
        data@.len() == 0 ==> res matches Err(RenderError::EmptyData),
        data@.len() > 0 && spec_qr_type(qr_type@) == Some(QrType::DataMatrix) ==> dm_auto_ok(
            res,
            data@,
            label_height as int,
        ),
        data@.len() > 0 && spec_qr_type(qr_type@) != Some(QrType::DataMatrix) ==> {
            let vs = spec_all_versions(spec_qr_type(qr_type@));
            let lh = label_height as int;
            &&& vs.len() == 0 ==> (res matches Err(RenderError::InvalidType))
            &&& vs.len() > 0 && (exists|i: int, e: EcLevel| #[trigger] is_auto_candidate(data@, vs, lh, i, e))
                ==> exists|i: int, e: EcLevel| #[trigger] is_auto_best(data@, vs, lh, i, e) && auto_render_ok(
                res,
                data@,
                vs,
                lh,
                i,
                e,
                qr_type@,
            )
            &&& vs.len() > 0 && !(exists|i: int, e: EcLevel| #[trigger] is_auto_candidate(data@, vs, lh, i, e))
                ==> (res matches Err(RenderError::DataTooLong { max_chars }) && prefix_any_ok_qr(
                data@,
                vs,
                lh,
                max_chars as int,
            ) && max_chars == qr_best_from(data@, vs, lh, 0))
        },
{
    if data.len() == 0 {
        return Err(RenderError::EmptyData);
    }
    if let Some(QrType::DataMatrix) = parse_qr_type(qr_type) {
        return auto_render_dm(data, label_height);
    }
    let versions = all_versions_for_type(qr_type);
    let ghost vs = versions@;
    let ghost lh = label_height as int;
    if versions.len() == 0 {
        return Err(RenderError::InvalidType);
    }
    let nv = versions.len();
    let mut best: Option<(u32, QrVersion, usize, EcLevel, u32)> = None;
    for idx in 0..nv
        invariant
            vs == versions@,
            nv == vs.len(),
            nv <= 40,
            lh == label_height,
            forall|i: int| 0 <= i < vs.len() ==> valid_version(#[trigger] vs[i]),
            forall|i: int, e: EcLevel| 0 <= i < idx && #[trigger] is_auto_candidate(data@, vs, lh, i, e)
                ==> (best matches Some(b) && candidate_score(vs, lh, i, e) <= b.0),
            best matches Some(b) ==> {
                &&& b.2 < idx
                &&& is_auto_candidate(data@, vs, lh, b.2 as int, b.3)
                &&& b.1 == vs[b.2 as int]
                &&& b.4 == best_scale(version_block(vs[b.2 as int]), lh)
                &&& b.0 == candidate_score(vs, lh, b.2 as int, b.3)
            },
    {
        let version = versions[idx];
        let block = version_block_exec(version);
        let scale = best_scale_exec(block, label_height);
        // A version that does not fit the label at scale 1 offers no candidate.
        if scale >= 1 {
            let levels = supported_ec_levels(version);
            let nl = levels.len();
            let mut j: usize = 0;
            while j < nl
                invariant
                    scale == best_scale(version_block(version), lh),
                    scale >= 1,
                    vs == versions@,
                    nv == vs.len(),
                    nv <= 40,
                    idx < nv,
                    lh == label_height,
                    version == vs[idx as int],
                    valid_version(version),
                    forall|i: int| 0 <= i < vs.len() ==> valid_version(#[trigger] vs[i]),
                    levels@ == supported_levels(version),
                    nl == levels@.len(),
                    j <= nl,
                    forall|i: int, e: EcLevel| (0 <= i < idx || (i == idx && levels@.subrange(nl - j, nl as int).contains(e)))
                        && #[trigger] is_auto_candidate(data@, vs, lh, i, e)
                        ==> (best matches Some(b) && candidate_score(vs, lh, i, e) <= b.0),
                    best matches Some(b) ==> {
                        &&& b.2 <= idx
                        &&& is_auto_candidate(data@, vs, lh, b.2 as int, b.3)
                        &&& b.1 == vs[b.2 as int]
                        &&& b.4 == best_scale(version_block(vs[b.2 as int]), lh)
                        &&& b.0 == candidate_score(vs, lh, b.2 as int, b.3)
                    },
                decreases nl - j,
            {
                let ec = levels[nl - 1 - j];
                let ghost old_best = best;
                proof {
                    assert(levels@[nl - 1 - j] == ec);
                    assert(supported_levels(version).contains(ec));
                }
                if qr_encode(data, version, ec).is_some() {
                    let score = ec_rank_exec(ec) * 100000 + (500 - idx as u32) * 100 + scale;
                    assert(score == candidate_score(vs, lh, idx as int, ec));
                    let replace = match best {
                        None => true,
                        Some(b) => score > b.0,
                    };
                    if replace {
                        best = Some((score, version, idx, ec, scale));
                    }
                }
                proof {
                    let newer = levels@.subrange(nl - j - 1, nl as int);
                    let older = levels@.subrange(nl - j, nl as int);
                    assert forall|e: EcLevel| #[trigger] newer.contains(e) implies e == ec || older.contains(e) by {
                        let k = choose|k: int| 0 <= k < newer.len() && newer[k] == e;
                        if k > 0 {
                            assert(older[k - 1] == e);
                        }
                    }
                }
                j = j + 1;
            }
            proof {
                assert(levels@.subrange(0, nl as int) =~= levels@);
            }
        }
    }
    match best {
        Some((_, version, idx, ec, scale)) => {
            proof {
                assert(is_auto_best(data@, vs, lh, idx as int, ec));
                assert(qr_draw_fits(vs[idx as int], lh));
            }
            match qr_encode(data, version, ec) {
                None => Err(RenderError::EncodeFailed),
                Some(bits) => {
                    let bmp = render_code(&bits, version, scale, label_height);
                    let info = QrRenderInfo {
                        qr_type: qr_type.to_string(),
                        version_index: resolve_index(qr_type, idx),
                        version_label: version_label(version),
                        ec_level: ec_to_str(ec).to_string(),
                        pixel_scale: scale,
                    };
                    Ok((bmp, info))
                },
            }
        },
        None => {
            let max = max_fitting_prefix_any(data, qr_type, label_height);
            Err(RenderError::DataTooLong { max_chars: max })
        },
    }
}

// ---------------------------------------------------------------------------
// Capabilities
// ---------------------------------------------------------------------------

/// `cap` holds the capacity boundaries of a version at a level for numeric,
/// alphanumeric and byte data (probed with '0', 'A' and 'a').
pub open spec fn capacity_ok(cap: QrCapacity, v: QrVersion, ec: EcLevel) -> bool {
    &&& is_boundary(|n: int| repeat_fits(v, ec, 0x30u8, n), cap.n as int, capacity_upper(v))
    &&& is_boundary(|n: int| repeat_fits(v, ec, 0x41u8, n), cap.a as int, capacity_upper(v))
    &&& is_boundary(|n: int| repeat_fits(v, ec, 0x61u8, n), cap.b as int, capacity_upper(v))
    &&& cap.n == mode_capacity(v, ec, 0x30u8)
    &&& cap.a == mode_capacity(v, ec, 0x41u8)
    &&& cap.b == mode_capacity(v, ec, 0x61u8)
}

/// The level names and per-level capacities of `info` follow `levels`.
pub open spec fn levels_ok(info: QrVersionInfo, v: QrVersion, levels: Seq<EcLevel>) -> bool {
    &&& info.ec_levels@.len() == levels.len()
    &&& info.capacity@.len() == levels.len()
    &&& forall|k: int| 0 <= k < levels.len() ==> {
        &&& (#[trigger] info.ec_levels@[k])@ == ec_name(levels[k])
        &&& info.capacity@[k].level@ == ec_name(levels[k])
        &&& capacity_ok(info.capacity@[k].capacity, v, levels[k])
    }
}

/// `info` describes version `c.1`, reported under index `c.0`.
pub open spec fn version_info_ok(info: QrVersionInfo, c: (int, QrVersion)) -> bool {
    &&& info.index == c.0
    &&& info.label@ == version_label_spec(c.1)
    &&& info.modules_w == version_width(c.1)
    &&& info.modules_h == version_height(c.1)
    &&& info.quiet_zone == quiet_zone_spec(c.1)
    &&& levels_ok(info, c.1, supported_levels(c.1))
}

/// A version is listed when it fits the label at scale 1 and supports some level.
pub open spec fn keeps(c: (int, QrVersion), label_height: int) -> bool {
    version_fits_spec(c.1, 1, label_height) && supported_levels(c.1).len() > 0
}

/// The listed versions among `cands`, in order.
pub open spec fn kept(cands: Seq<(int, QrVersion)>, label_height: int) -> Seq<(int, QrVersion)>
    decreases cands.len(),
{
    if cands.len() == 0 {
        Seq::<(int, QrVersion)>::empty()
    } else {
        kept(cands.drop_last(), label_height) + if keeps(cands.last(), label_height) {
            seq![cands.last()]
        } else {
            Seq::<(int, QrVersion)>::empty()
        }
    }
}

pub open spec fn standard_cands() -> Seq<(int, QrVersion)> {
    Seq::new(40, |i: int| (i + 1, QrVersion::Normal((i + 1) as i16)))
}

pub open spec fn micro_cands() -> Seq<(int, QrVersion)> {
    Seq::new(4, |i: int| (i + 1, QrVersion::Micro((i + 1) as i16)))
}

pub open spec fn rmqr_cands() -> Seq<(int, QrVersion)> {
    Seq::new(32, |i: int| (i, QrVersion::RectMicro(rmqr_entry(i).0, rmqr_entry(i).1)))
}

/// `infos` lists exactly the kept candidates, each described by `version_info_ok`.
pub open spec fn infos_ok(infos: Seq<QrVersionInfo>, cands: Seq<(int, QrVersion)>, label_height: int) -> bool {
    &&& infos.len() == kept(cands, label_height).len()
    &&& forall|k: int| 0 <= k < infos.len() ==> version_info_ok(#[trigger] infos[k], kept(cands, label_height)[k])
}

/// The Data Matrix sizes among the first `n` that fit the label at scale 1.
pub open spec fn dm_kept(n: int, label_height: int) -> Seq<int>
    decreases n,
{
    if n <= 0 {
        Seq::<int>::empty()
    } else {
        dm_kept(n - 1, label_height) + if dm_fits_height(n - 1, label_height) {
            seq![n - 1]
        } else {
            Seq::<int>::empty()
        }
    }
}

/// `info` describes the Data Matrix size at `idx`.
pub open spec fn dm_info_ok(info: QrVersionInfo, idx: int) -> bool {
    let (h, w) = dm_entry(idx);
    &&& info.index == idx
    &&& info.label@ == dm_label_spec(h as int, w as int)
    &&& info.modules_w == w
    &&& info.modules_h == h
    &&& info.quiet_zone == dm_quiet_zone()
    &&& info.ec_levels@.len() == 1
    &&& info.ec_levels@[0]@ == "ECC200"@
    &&& info.capacity@.len() == 1
    &&& info.capacity@[0].level@ == "ECC200"@
    &&& dm_cap_boundary(idx, info.capacity@[0].capacity.n as int)
    &&& info.capacity@[0].capacity.n == dm_cap_value(idx)
    &&& info.capacity@[0].capacity.a == info.capacity@[0].capacity.n
    &&& info.capacity@[0].capacity.b == info.capacity@[0].capacity.n
}

proof fn lemma_kept_take(cands: Seq<(int, QrVersion)>, i: int, label_height: int)
    requires
        0 <= i < cands.len(),
    ensures
        kept(cands.take(i + 1), label_height) == kept(cands.take(i), label_height) + if keeps(
            cands[i],
            label_height,
        ) {
            seq![cands[i]]
        } else {
            Seq::<(int, QrVersion)>::empty()
        },
{
    assert(cands.take(i + 1).drop_last() =~= cands.take(i));
}

/// Once no later candidate fits, the kept list no longer grows.
proof fn lemma_kept_rest_unfit(cands: Seq<(int, QrVersion)>, i: int, j: int, label_height: int)
    requires
        0 <= i <= j <= cands.len(),
        forall|k: int| i <= k < cands.len() ==> !version_fits_spec(#[trigger] cands[k].1, 1, label_height),
    ensures
        kept(cands.take(j), label_height) == kept(cands.take(i), label_height),
    decreases j - i,
{
    if j > i {
        lemma_kept_rest_unfit(cands, i, j - 1, label_height);
        lemma_kept_take(cands, j - 1, label_height);
    }
}

fn compute_capacity(version: QrVersion, ec_levels: &Vec<EcLevel>) -> (caps: Vec<EcCapacity>)
    requires
        valid_version(version),
    ensures
        caps@.len() == ec_levels@.len(),
        forall|k: int| 0 <= k < ec_levels@.len() ==> {
            &&& (#[trigger] caps@[k]).level@ == ec_name(ec_levels@[k])
            &&& capacity_ok(caps@[k].capacity, version, ec_levels@[k])
        },
{
    let mut caps: Vec<EcCapacity> = Vec::new();
    for i in 0..ec_levels.len()
        invariant
            valid_version(version),
            caps@.len() == i,
            forall|k: int| 0 <= k < i ==> {
                &&& (#[trigger] caps@[k]).level@ == ec_name(ec_levels@[k])
                &&& capacity_ok(caps@[k].capacity, version, ec_levels@[k])
            },
    {
        let ec = ec_levels[i];
        let entry = EcCapacity {
            level: ec_to_str(ec).to_string(),
            capacity: QrCapacity {
                n: max_capacity_for_mode(version, ec, 0x30u8),
                a: max_capacity_for_mode(version, ec, 0x41u8),
                b: max_capacity_for_mode(version, ec, 0x61u8),
            },
        };
        caps.push(entry);
    }
    caps
}

fn version_info(index: usize, version: QrVersion, ec_levels: &Vec<EcLevel>) -> (info: QrVersionInfo)
    requires
        valid_version(version),
        ec_levels@ == supported_levels(version),
    ensures
        version_info_ok(info, (index as int, version)),
{
    let (w, h) = version_dims(version);
    let mut names: Vec<String> = Vec::new();
    for i in 0..ec_levels.len()
        invariant
            names@.len() == i,
            forall|k: int| 0 <= k < i ==> (#[trigger] names@[k])@ == ec_name(ec_levels@[k]),
    {
        names.push(ec_to_str(ec_levels[i]).to_string());
    }
    let capacity = compute_capacity(version, ec_levels);
    QrVersionInfo {
        index,
        label: version_label(version),
        modules_w: w,
        modules_h: h,
        quiet_zone: quiet_zone(version),
        ec_levels: names,
        capacity,
    }
}

/// Lists, per family, the versions that fit a label of `label_height` pixels at
/// scale 1, with their size, quiet zone, supported levels and capacities.
pub fn capabilities(label_height: u32) -> (caps: QrCapabilities)
    ensures
        caps.label_height == label_height,
        infos_ok(caps.standard@, standard_cands(), label_height as int),
        infos_ok(caps.micro@, micro_cands(), label_height as int),
        infos_ok(caps.rmqr@, rmqr_cands(), label_height as int),
        caps.datamatrix@.len() == dm_kept(dm_count(), label_height as int).len(),
        forall|k: int| 0 <= k < caps.datamatrix@.len() ==> dm_info_ok(
            #[trigger] caps.datamatrix@[k],
            dm_kept(dm_count(), label_height as int)[k],
        ),
{
    let ghost lh = label_height as int;
    let mut standard: Vec<QrVersionInfo> = Vec::new();
    let ghost sc = standard_cands();
    assert(sc.take(40) =~= sc);
    let mut v: i16 = 1;
    while v <= 40
        invariant
            1 <= v <= 41,
            sc == standard_cands(),
            lh == label_height,
            infos_ok(standard@, sc.take(v - 1), lh),
            sc.take(40) == sc,
        ensures
            infos_ok(standard@, sc, lh),
        decreases 41 - v,
    {
        let version = QrVersion::Normal(v);
        assert(sc[v - 1] == (v as int, version));
        if !version_fits(version, 1, label_height) {
            proof {
                assert forall|k: int| v - 1 <= k < sc.len() implies !version_fits_spec(#[trigger] sc[k].1, 1, lh) by {
                    assert(sc[k].1 == QrVersion::Normal((k + 1) as i16));
                }
                lemma_kept_rest_unfit(sc, v - 1, 40, lh);
            }
            break;
        }
        let ec_levels = supported_ec_levels(version);
        proof {
            lemma_kept_take(sc, v - 1, lh);
            assert(sc.take(v - 1 + 1) == sc.take(v as int));
        }
        if ec_levels.len() != 0 {
            let info = version_info(v as usize, version, &ec_levels);
            standard.push(info);
        }
        v = v + 1;
    }

    let mut micro: Vec<QrVersionInfo> = Vec::new();
    let ghost mc = micro_cands();
    assert(mc.take(4) =~= mc);
    let mut v: i16 = 1;
    while v <= 4
        invariant
            1 <= v <= 5,
            mc == micro_cands(),
            lh == label_height,
            infos_ok(micro@, mc.take(v - 1), lh),
            mc.take(4) == mc,
        ensures
            infos_ok(micro@, mc, lh),
        decreases 5 - v,
    {
        let version = QrVersion::Micro(v);
        assert(mc[v - 1] == (v as int, version));
        if !version_fits(version, 1, label_height) {
            proof {
                assert forall|k: int| v - 1 <= k < mc.len() implies !version_fits_spec(#[trigger] mc[k].1, 1, lh) by {
                    assert(mc[k].1 == QrVersion::Micro((k + 1) as i16));
                }
                lemma_kept_rest_unfit(mc, v - 1, 4, lh);
            }
            break;
        }
        let ec_levels = supported_ec_levels(version);
        proof {
            lemma_kept_take(mc, v - 1, lh);
            assert(mc.take(v - 1 + 1) == mc.take(v as int));
        }
        if ec_levels.len() != 0 {
            let info = version_info(v as usize, version, &ec_levels);
            micro.push(info);
        }
        v = v + 1;
    }

    let mut rmqr: Vec<QrVersionInfo> = Vec::new();
    let ghost rc = rmqr_cands();
    for idx in 0..32usize
        invariant
            rc == rmqr_cands(),
            lh == label_height,
            infos_ok(rmqr@, rc.take(idx as int), lh),
    {
        let (h, w) = match rmqr_size(idx) {
            Some(hw) => hw,
            None => (7, 43),
        };
        let version = QrVersion::RectMicro(h, w);
        proof {
            lemma_rmqr_entry_valid(idx as int);
            assert(rc[idx as int] == (idx as int, version));
            lemma_kept_take(rc, idx as int, lh);
        }
        if version_fits(version, 1, label_height) {
            let ec_levels = supported_ec_levels(version);
            if ec_levels.len() != 0 {
                let info = version_info(idx, version, &ec_levels);
                rmqr.push(info);
            }
        }
    }
    proof {
        assert(rc.take(32) =~= rc);
    }

    let mut datamatrix: Vec<QrVersionInfo> = Vec::new();
    for idx in 0..40usize
        invariant
            lh == label_height,
            datamatrix@.len() == dm_kept(idx as int, lh).len(),
            forall|k: int| 0 <= k < datamatrix@.len() ==> dm_info_ok(
                #[trigger] datamatrix@[k],
                dm_kept(idx as int, lh)[k],
            ),
    {
        let (h, w) = match dm_size(idx) {
            Some(hw) => hw,
            None => (0, 0),
        };
        proof {
            lemma_dm_entry_bounds(idx as int);
        }
        let total_h = h as u32 + 2;
        if total_h <= label_height {
            let cap = dm_capacity(idx);
            let mut capacity: Vec<EcCapacity> = Vec::new();
            capacity.push(EcCapacity { level: "ECC200".to_string(), capacity: QrCapacity { n: cap, a: cap, b: cap } });
            let mut names: Vec<String> = Vec::new();
            names.push("ECC200".to_string());
            let info = QrVersionInfo {
                index: idx,
                label: dm_label(h, w),
                modules_w: w,
                modules_h: h,
                quiet_zone: 1,
                ec_levels: names,
                capacity,
            };
            assert(dm_info_ok(info, idx as int));
            datamatrix.push(info);
        }
    }

    QrCapabilities { label_height, standard, micro, rmqr, datamatrix }
}

} // verus!
