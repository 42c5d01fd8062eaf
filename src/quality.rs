//! Data-quality rules: PII detection by content and by column name, and the
//! completeness, uniqueness and duplicate-row findings.
use vstd::prelude::*;
use crate::text::{
    chars_eq_str, chars_of, contains_str, lower_of, lowercase, numeric_count, numeric_count_of,
    seq_contains, string_of, trim_chars, trimmed, sat_utf8_len, utf8_len_of, tenths, tenths_text,
    hundredths, hundredths_text, decimal, decimal_text,
};
use crate::types::DataType;

verus! {

/// How serious a data-quality finding is.
#[derive(Clone, Copy, Debug, PartialEq, Eq, Structural)]
pub enum Severity {
    Info,
    Warning,
    Error,
}

/// One data-quality finding about a column or about the whole data set.
#[derive(Clone, Debug)]
pub struct QualityIssue {
    pub id: String,
    pub message: String,
    pub severity: Severity,
}

/// Kinds of personally identifiable information that the content rules recognise.
#[derive(Clone, Copy, Debug, PartialEq, Eq, Structural)]
pub enum PiiType {
    Email,
    Phone,
    Ssn,
    CreditCard,
    IpAddress,
    DateOfBirth,
    PostalCode,
}

pub open spec fn pii_label(p: PiiType) -> Seq<char> {
    match p {
        PiiType::Email => "email"@,
        PiiType::Phone => "phone number"@,
        PiiType::Ssn => "SSN"@,
        PiiType::CreditCard => "credit card"@,
        PiiType::IpAddress => "IP address"@,
        PiiType::DateOfBirth => "date of birth"@,
        PiiType::PostalCode => "postal code"@,
    }
}

/// The label with each space written as an underscore, as issue ids carry it.
pub open spec fn pii_slug(p: PiiType) -> Seq<char> {
    match p {
        PiiType::Email => "email"@,
        PiiType::Phone => "phone_number"@,
        PiiType::Ssn => "SSN"@,
        PiiType::CreditCard => "credit_card"@,
        PiiType::IpAddress => "IP_address"@,
        PiiType::DateOfBirth => "date_of_birth"@,
        PiiType::PostalCode => "postal_code"@,
    }
}

pub open spec fn pii_severity(p: PiiType) -> Severity {
    match p {
        PiiType::Ssn | PiiType::CreditCard => Severity::Error,
        PiiType::PostalCode => Severity::Info,
        _ => Severity::Warning,
    }
}

impl PiiType {
    /// Human-readable label of the kind.
    pub fn as_str(&self) -> (r: &'static str)
        ensures
            r@ == pii_label(*self),
    {
        match self {
            PiiType::Email => "email",
            PiiType::Phone => "phone number",
            PiiType::Ssn => "SSN",
            PiiType::CreditCard => "credit card",
            PiiType::IpAddress => "IP address",
            PiiType::DateOfBirth => "date of birth",
            PiiType::PostalCode => "postal code",
        }
    }

    fn slug(&self) -> (r: &'static str)
        ensures
            r@ == pii_slug(*self),
    {
        match self {
            PiiType::Email => "email",
            PiiType::Phone => "phone_number",
            PiiType::Ssn => "SSN",
            PiiType::CreditCard => "credit_card",
            PiiType::IpAddress => "IP_address",
            PiiType::DateOfBirth => "date_of_birth",
            PiiType::PostalCode => "postal_code",
        }
    }

    /// Severity of a finding of this kind.
    pub fn severity(&self) -> (r: Severity)
        ensures
            r == pii_severity(*self),
    {
        match self {
            PiiType::Email => Severity::Warning,
            PiiType::Phone => Severity::Warning,
            PiiType::Ssn => Severity::Error,
            PiiType::CreditCard => Severity::Error,
            PiiType::IpAddress => Severity::Warning,
            PiiType::DateOfBirth => Severity::Warning,
            PiiType::PostalCode => Severity::Info,
        }
    }
}

// ---------------------------------------------------------------------------
// Column-name heuristic
// ---------------------------------------------------------------------------

pub open spec fn name_has(n: Seq<char>, p: &str) -> bool {
    seq_contains(n, p@)
}

/// The kind of PII that a lower-cased column name suggests.
pub open spec fn pii_from_lower_name(n: Seq<char>) -> Option<PiiType> {
    if name_has(n, "email") || name_has(n, "e_mail") || name_has(n, "e-mail") {
        Some(PiiType::Email)
    } else if name_has(n, "phone") || name_has(n, "mobile") || name_has(n, "cell") || name_has(n, "tel") || name_has(
        n,
        "fax",
    ) {
        Some(PiiType::Phone)
    } else if name_has(n, "ssn") || name_has(n, "social_security") || name_has(n, "socialsecurity") || name_has(
        n,
        "social-security",
    ) {
        Some(PiiType::Ssn)
    } else if name_has(n, "ip_address") || name_has(n, "ipaddress") || name_has(n, "ip_addr") || name_has(
        n,
        "client_ip",
    ) || name_has(n, "user_ip") || name_has(n, "server_ip") || name_has(n, "source_ip") || name_has(n, "dest_ip")
        || name_has(n, "remote_ip") || n == "ip"@ {
        Some(PiiType::IpAddress)
    } else if name_has(n, "address") || name_has(n, "street") || name_has(n, "zip") || name_has(n, "postal") || name_has(
        n,
        "postcode",
    ) {
        Some(PiiType::PostalCode)
    } else if name_has(n, "dob") || name_has(n, "birth") {
        Some(PiiType::DateOfBirth)
    } else {
        None
    }
}

/// The kind of PII that a column name alone suggests, if any. Names that merely hold
/// "name" (a person's name) are not mapped to a kind.
pub fn detect_pii_from_column_name(name: &str) -> (r: Option<PiiType>)
    ensures
        r == pii_from_lower_name(lower_of(name@)),
{
    let lower = lowercase(name);
    pii_kind_for_lower_name(lower.as_str())
}

/// The kind of PII that an already lower-cased column name suggests.
pub fn pii_kind_for_lower_name(lower: &str) -> (r: Option<PiiType>)
    ensures
        r == pii_from_lower_name(lower@),
{
    let n = chars_of(lower);
    let n = n.as_slice();
    if contains_str(n, "email") || contains_str(n, "e_mail") || contains_str(n, "e-mail") {
        return Some(PiiType::Email);
    }
    if contains_str(n, "phone") || contains_str(n, "mobile") || contains_str(n, "cell")
        || contains_str(n, "tel") || contains_str(n, "fax") {
        return Some(PiiType::Phone);
    }
    if contains_str(n, "ssn") || contains_str(n, "social_security") || contains_str(
        n,
        "socialsecurity",
    ) || contains_str(n, "social-security") {
        return Some(PiiType::Ssn);
    }
    // checked before addresses: "ip_address" holds "address"
    if contains_str(n, "ip_address") || contains_str(n, "ipaddress") || contains_str(n, "ip_addr")
        || contains_str(n, "client_ip") || contains_str(n, "user_ip") || contains_str(
        n,
        "server_ip",
    ) || contains_str(n, "source_ip") || contains_str(n, "dest_ip") || contains_str(
        n,
        "remote_ip",
    ) || chars_eq_str(n, "ip") {
        return Some(PiiType::IpAddress);
    }
    if contains_str(n, "address") || contains_str(n, "street") || contains_str(n, "zip")
        || contains_str(n, "postal") || contains_str(n, "postcode") {
        return Some(PiiType::PostalCode);
    }
    if contains_str(n, "dob") || contains_str(n, "birth") {
        return Some(PiiType::DateOfBirth);
    }
    None
}

/// Whether a lower-cased column name holds one of the personal-data keywords.
pub open spec fn potential_pii_name(n: Seq<char>) -> bool {
    name_has(n, "email") || name_has(n, "phone") || name_has(n, "ssn") || name_has(n, "social_security") || name_has(n, "address") || name_has(n, "name") || name_has(n, "first_name") || name_has(n, "last_name") || name_has(n, "firstname") || name_has(n, "lastname") || name_has(n, "dob") || name_has(n, "date_of_birth") || name_has(n, "birth") || name_has(n, "passport") || name_has(n, "license") || name_has(n, "credit_card") || name_has(n, "card_number") || name_has(n, "zip") || name_has(n, "postal") || name_has(n, "ip_address") || name_has(n, "ip")
}

/// Whether the column name, lower-cased, holds a personal-data keyword (a name, contact,
/// identity document, address or network-address word).
pub fn is_potential_pii(column_name: &str) -> (r: bool)
    ensures
        r == potential_pii_name(lower_of(column_name@)),
{
    let lower = lowercase(column_name);
    let n = chars_of(lower.as_str());
    let n = n.as_slice();
    contains_str(n, "email") || contains_str(n, "phone") || contains_str(n, "ssn") || contains_str(n, "social_security") || contains_str(n, "address") || contains_str(n, "name") || contains_str(n, "first_name") || contains_str(n, "last_name") || contains_str(n, "firstname") || contains_str(n, "lastname") || contains_str(n, "dob") || contains_str(n, "date_of_birth") || contains_str(n, "birth") || contains_str(n, "passport") || contains_str(n, "license") || contains_str(n, "credit_card") || contains_str(n, "card_number") || contains_str(n, "zip") || contains_str(n, "postal") || contains_str(n, "ip_address") || contains_str(n, "ip")
}

// ---------------------------------------------------------------------------
// Content patterns
// ---------------------------------------------------------------------------

/// Whether the regular expression `pattern` matches somewhere in `text`.
pub uninterp spec fn regex_matches(pattern: Seq<char>, text: Seq<char>) -> bool;

/// Relies on `regex::Regex::new` and `Regex::is_match`: whether the pattern finds a
/// match anywhere in the text. A pattern that does not compile matches nothing.
#[verifier::external_body]
fn regex_is_match(pattern: &str, text: &str) -> (r: bool)
    ensures
        r == regex_matches(pattern@, text@),
{
    match regex::Regex::new(pattern) {
        Ok(re) => re.is_match(text),
        Err(_) => false,
    }
}

pub const EMAIL_RE: &'static str = "(?i)\\b[A-Z0-9._%+-]+@[A-Z0-9.-]+\\.[A-Z]{2,}\\b";

pub const PHONE_RE: &'static str = "(?:\\+?1[-.\\s]?)?\\(?\\d{3}\\)?[-.\\s]?\\d{3}[-.\\s]?\\d{4}";

pub const SSN_RE: &'static str = "^\\d{3}-\\d{2}-\\d{4}$";

pub const CREDIT_CARD_RE: &'static str = "\\b\\d{4}[\\s-]?\\d{4}[\\s-]?\\d{4}[\\s-]?\\d{4,7}\\b";

pub const IP_ADDRESS_RE: &'static str = "\\b(?:[0-9]{1,3}\\.){3}[0-9]{1,3}\\b";

pub const DOB_RE: &'static str = "\\b(?:19|20)\\d{2}[-/](?:0[1-9]|1[0-2])[-/](?:0[1-9]|[12]\\d|3[01])\\b";

pub const US_POSTAL_RE: &'static str = "\\b\\d{5}(?:-\\d{4})?\\b";

pub const CA_POSTAL_RE: &'static str = "(?i)\\b[A-Z]\\d[A-Z]\\s?\\d[A-Z]\\d\\b";

/// Whether one trimmed cell counts as a hit for a kind of PII.
pub open spec fn content_hit(kind: PiiType, t: Seq<char>) -> bool {
    match kind {
        PiiType::Email => regex_matches(EMAIL_RE@, t),
        PiiType::Phone => regex_matches(PHONE_RE@, t),
        PiiType::Ssn => sat_utf8_len(t) == 11 && numeric_count(t) == 9 && regex_matches(SSN_RE@, t),
        PiiType::CreditCard => sat_utf8_len(t) > 13 && regex_matches(CREDIT_CARD_RE@, t),
        PiiType::IpAddress => regex_matches(IP_ADDRESS_RE@, t),
        PiiType::DateOfBirth => regex_matches(DOB_RE@, t),
        PiiType::PostalCode => regex_matches(US_POSTAL_RE@, t) || regex_matches(CA_POSTAL_RE@, t),
    }
}

/// Number of cells of `s` that are hits for `kind`.
pub open spec fn hits(s: Seq<Seq<char>>, kind: PiiType) -> nat
    decreases s.len(),
{
    if s.len() == 0 {
        0
    } else {
        hits(s.drop_last(), kind) + if content_hit(kind, s.last()) {
            1nat
        } else {
            0nat
        }
    }
}

pub const PII_SAMPLE_CAP: usize = 100;

/// The trimmed cells that the content rules look at: the first hundred.
pub open spec fn pii_sample(values: Seq<Seq<char>>) -> Seq<Seq<char>> {
    let n: int = if values.len() < 100 { values.len() as int } else { 100 };
    values.take(n).map_values(|v: Seq<char>| trimmed(v))
}

pub open spec fn str_views(values: Seq<&str>) -> Seq<Seq<char>> {
    values.map_values(|v: &str| v@)
}

/// Hits needed to flag a kind: 30% of the sample, rounded up, and at least one.
pub open spec fn pii_threshold(n: nat) -> nat {
    let t = (3 * n + 9) / 10;
    if t < 1 {
        1
    } else {
        t
    }
}

/// Hits of each content rule in a sample of `sample_size` cells.
#[derive(Clone, Copy, Debug)]
pub struct PiiHits {
    pub email: usize,
    pub phone: usize,
    pub ssn: usize,
    pub credit_card: usize,
    pub ip_address: usize,
    pub date_of_birth: usize,
    pub postal_code: usize,
    pub sample_size: usize,
}

/// The verdict for given hit counts: kinds are tried from the most sensitive down, each
/// needing the threshold; the name hint halves it for dates of birth, is required for
/// postal codes, and is the answer when no rule fires.
pub open spec fn verdict_from_hits(h: PiiHits, hint: Option<PiiType>) -> Option<PiiType> {
    let th = pii_threshold(h.sample_size as nat);
    let dob_th = if hint == Some(PiiType::DateOfBirth) {
        if th / 2 < 1 {
            1
        } else {
            th / 2
        }
    } else {
        th
    };
    if h.ssn >= th {
        Some(PiiType::Ssn)
    } else if h.credit_card >= th {
        Some(PiiType::CreditCard)
    } else if h.email >= th {
        Some(PiiType::Email)
    } else if h.phone >= th {
        Some(PiiType::Phone)
    } else if h.ip_address >= th {
        Some(PiiType::IpAddress)
    } else if h.date_of_birth >= dob_th {
        Some(PiiType::DateOfBirth)
    } else if h.postal_code >= th && hint == Some(PiiType::PostalCode) {
        Some(PiiType::PostalCode)
    } else {
        hint
    }
}

/// The hit counts of a sample.
pub open spec fn hits_of(s: Seq<Seq<char>>) -> PiiHits {
    PiiHits {
        email: hits(s, PiiType::Email) as usize,
        phone: hits(s, PiiType::Phone) as usize,
        ssn: hits(s, PiiType::Ssn) as usize,
        credit_card: hits(s, PiiType::CreditCard) as usize,
        ip_address: hits(s, PiiType::IpAddress) as usize,
        date_of_birth: hits(s, PiiType::DateOfBirth) as usize,
        postal_code: hits(s, PiiType::PostalCode) as usize,
        sample_size: s.len() as usize,
    }
}

/// The verdict of the content rules over a sample, with the column-name hint as fallback.
pub open spec fn pii_verdict(s: Seq<Seq<char>>, hint: Option<PiiType>) -> Option<PiiType> {
    verdict_from_hits(hits_of(s), hint)
}

/// The verdict for given hit counts (see `verdict_from_hits`).
pub fn pii_from_hits(h: PiiHits, hint: Option<PiiType>) -> (r: Option<PiiType>)
    requires
        h.sample_size <= 100,
    ensures
        r == verdict_from_hits(h, hint),
{
    let threshold: usize = if (3 * h.sample_size + 9) / 10 < 1 {
        1
    } else {
        (3 * h.sample_size + 9) / 10
    };
    if h.ssn >= threshold {
        return Some(PiiType::Ssn);
    }
    if h.credit_card >= threshold {
        return Some(PiiType::CreditCard);
    }
    if h.email >= threshold {
        return Some(PiiType::Email);
    }
    if h.phone >= threshold {
        return Some(PiiType::Phone);
    }
    if h.ip_address >= threshold {
        return Some(PiiType::IpAddress);
    }
    let dob_threshold: usize = if hint == Some(PiiType::DateOfBirth) {
        if threshold / 2 < 1 {
            1
        } else {
            threshold / 2
        }
    } else {
        threshold
    };
    if h.date_of_birth >= dob_threshold {
        return Some(PiiType::DateOfBirth);
    }
    if h.postal_code >= threshold && hint == Some(PiiType::PostalCode) {
        return Some(PiiType::PostalCode);
    }
    hint
}

pub open spec fn name_hint(column_name: Option<&str>) -> Option<PiiType> {
    match column_name {
        Some(n) => pii_from_lower_name(lower_of(n@)),
        None => None,
    }
}

/// Which content rules one trimmed cell meets, in the order
/// email, phone, SSN, credit card, IP address, date of birth, postal code.
fn cell_hits(t: &[char]) -> (r: [bool; 7])
    ensures
        r[0] == content_hit(PiiType::Email, t@),
        r[1] == content_hit(PiiType::Phone, t@),
        r[2] == content_hit(PiiType::Ssn, t@),
        r[3] == content_hit(PiiType::CreditCard, t@),
        r[4] == content_hit(PiiType::IpAddress, t@),
        r[5] == content_hit(PiiType::DateOfBirth, t@),
        r[6] == content_hit(PiiType::PostalCode, t@),
{
    let s = string_of(t);
    let s = s.as_str();
    let len = utf8_len_of(t);
    let email = regex_is_match(EMAIL_RE, s);
    let phone = regex_is_match(PHONE_RE, s);
    let ssn = len == 11 && numeric_count_of(t) == 9 && regex_is_match(SSN_RE, s);
    let cc = len > 13 && regex_is_match(CREDIT_CARD_RE, s);
    let ip = regex_is_match(IP_ADDRESS_RE, s);
    let dob = regex_is_match(DOB_RE, s);
    let postal = regex_is_match(US_POSTAL_RE, s) || regex_is_match(CA_POSTAL_RE, s);
    [email, phone, ssn, cc, ip, dob, postal]
}

/// Whether one trimmed cell is a hit for `kind`.
pub fn is_hit(kind: PiiType, t: &[char]) -> (r: bool)
    ensures
        r == content_hit(kind, t@),
{
    let h = cell_hits(t);
    match kind {
        PiiType::Email => h[0],
        PiiType::Phone => h[1],
        PiiType::Ssn => h[2],
        PiiType::CreditCard => h[3],
        PiiType::IpAddress => h[4],
        PiiType::DateOfBirth => h[5],
        PiiType::PostalCode => h[6],
    }
}

/// Finds the kind of PII that a sample of cells holds, by content alone.
pub fn detect_pii_pattern(values: &[&str]) -> (r: Option<PiiType>)
    ensures
        r == (if values@.len() == 0 {
            None
        } else {
            pii_verdict(pii_sample(str_views(values@)), None)
        }),
{
    detect_pii_pattern_with_column_name(values, None)
}

/// Finds the kind of PII that a sample of cells holds. The first hundred cells are
/// looked at, trimmed; kinds are tried from the most sensitive down. The column name
/// lowers the bar for dates of birth, is required for postal codes, and is the
/// answer when no content rule fires.
pub fn detect_pii_pattern_with_column_name(values: &[&str], column_name: Option<&str>) -> (r:
    Option<PiiType>)
    ensures
        r == (if values@.len() == 0 {
            None
        } else {
            pii_verdict(pii_sample(str_views(values@)), name_hint(column_name))
        }),
{
    if values.len() == 0 {
        return None;
    }
    let n: usize = if values.len() < PII_SAMPLE_CAP {
        values.len()
    } else {
        PII_SAMPLE_CAP
    };
    let ghost sample = pii_sample(str_views(values@));
    let mut email: usize = 0;
    let mut phone: usize = 0;
    let mut ssn: usize = 0;
    let mut cc: usize = 0;
    let mut ip: usize = 0;
    let mut dob: usize = 0;
    let mut postal: usize = 0;
    let mut i: usize = 0;
    while i < n
        invariant
            sample == pii_sample(str_views(values@)),
            n == sample.len(),
            n <= values@.len(),
            i <= n,
            email == hits(sample.subrange(0, i as int), PiiType::Email),
            phone == hits(sample.subrange(0, i as int), PiiType::Phone),
            ssn == hits(sample.subrange(0, i as int), PiiType::Ssn),
            cc == hits(sample.subrange(0, i as int), PiiType::CreditCard),
            ip == hits(sample.subrange(0, i as int), PiiType::IpAddress),
            dob == hits(sample.subrange(0, i as int), PiiType::DateOfBirth),
            postal == hits(sample.subrange(0, i as int), PiiType::PostalCode),
            email <= i && phone <= i && ssn <= i && cc <= i && ip <= i && dob <= i && postal <= i,
        decreases n - i,
    {
        let cs = chars_of(values[i]);
        let t = trim_chars(cs.as_slice());
        let h = cell_hits(t.as_slice());
        proof {
            let p = sample.subrange(0, i + 1);
            assert(p.drop_last() == sample.subrange(0, i as int));
            assert(sample[i as int] == trimmed(values@[i as int]@));
            assert(p.last() == sample[i as int]);
        }
        if h[0] {
            email = email + 1;
        }
        if h[1] {
            phone = phone + 1;
        }
        if h[2] {
            ssn = ssn + 1;
        }
        if h[3] {
            cc = cc + 1;
        }
        if h[4] {
            ip = ip + 1;
        }
        if h[5] {
            dob = dob + 1;
        }
        if h[6] {
            postal = postal + 1;
        }
        i = i + 1;
    }
    assert(sample.subrange(0, n as int) == sample);
    let hint = match column_name {
        Some(name) => detect_pii_from_column_name(name),
        None => None,
    };
    let h = PiiHits {
        email,
        phone,
        ssn,
        credit_card: cc,
        ip_address: ip,
        date_of_birth: dob,
        postal_code: postal,
        sample_size: n,
    };
    assert(h == hits_of(sample));
    pii_from_hits(h, hint)
}

// ---------------------------------------------------------------------------
// Issues
// ---------------------------------------------------------------------------

fn join(a: &str, b: &str) -> (r: String)
    ensures
        r@ == a@ + b@,
{
    let mut r = String::from_str(a);
    r.append(b);
    r
}

fn issue(id: String, message: String, severity: Severity) -> (r: QualityIssue)
    ensures
        r.id@ == id@,
        r.message@ == message@,
        r.severity == severity,
{
    QualityIssue { id, message, severity }
}

/// The finding for a detected kind of PII, if any.
pub fn check_pii_issues(pii_type: Option<PiiType>, column_name: &str) -> (r: Vec<QualityIssue>)
    ensures
        pii_type is None ==> r@.len() == 0,
        pii_type matches Some(p) ==> r@.len() == 1 && r@[0].severity == pii_severity(p)
            && r@[0].id@ == column_name@ + "_pii_"@ + pii_slug(p) && r@[0].message@
            == "Potential PII detected: "@ + pii_label(p),
{
    let mut issues: Vec<QualityIssue> = Vec::new();
    if let Some(p) = pii_type {
        let id = join(join(column_name, "_pii_").as_str(), p.slug());
        let message = join("Potential PII detected: ", p.as_str());
        issues.push(issue(id, message, p.severity()));
    }
    issues
}

/// Cells present: `count - missing`, and none when more are missing than counted.
pub open spec fn present_of(count: u64, missing: u64) -> nat {
    if missing >= count {
        0
    } else {
        (count - missing) as nat
    }
}

/// Severity of the completeness finding: completeness `present / count` below 0.5 is
/// an error, below 0.9 a warning, below 1 a note; an empty column is complete.
pub open spec fn completeness_severity(count: u64, missing: u64) -> Option<Severity> {
    let p = present_of(count, missing);
    if count == 0 || p >= count {
        None
    } else if 2 * p < count {
        Some(Severity::Error)
    } else if 10 * p < 9 * count {
        Some(Severity::Warning)
    } else {
        Some(Severity::Info)
    }
}

/// Completeness in tenths of a percent, rounded half up.
pub open spec fn completeness_tenths(count: u64, missing: u64) -> nat {
    let raw = (2000 * present_of(count, missing) + count) / (2 * count);
    if raw > 1000 {
        1000
    } else {
        raw as nat
    }
}

/// The completeness finding of a column with `count` cells of which `missing` are missing.
pub fn check_completeness_issues(count: u64, missing: u64, column_name: &str) -> (r: Vec<
    QualityIssue,
>)
    ensures
        completeness_severity(count, missing) is None ==> r@.len() == 0,
        completeness_severity(count, missing) matches Some(sev) ==> r@.len() == 1
            && r@[0].severity == sev && r@[0].id@ == column_name@ + (match sev {
            Severity::Error => "_completeness_critical"@,
            Severity::Warning => "_completeness_warning"@,
            Severity::Info => "_completeness_info"@,
        }) && r@[0].message@ == (match sev {
            Severity::Error => "Critical: Only "@ + tenths_text(completeness_tenths(count, missing))
                + "% of values are present"@,
            Severity::Warning => "Completeness is "@ + tenths_text(
                completeness_tenths(count, missing),
            ) + "% (below 90% threshold)"@,
            Severity::Info => "Completeness is "@ + tenths_text(completeness_tenths(count, missing))
                + "%"@,
        }),
{
    let mut issues: Vec<QualityIssue> = Vec::new();
    let present: u64 = if missing >= count {
        0
    } else {
        count - missing
    };
    if count == 0 || present >= count {
        return issues;
    }
    let raw: u128 = (2000 * (present as u128) + count as u128) / (2 * count as u128);
    let t: u64 = if raw > 1000 {
        1000
    } else {
        raw as u64
    };
    let pct = tenths(t);
    if 2 * (present as u128) < count as u128 {
        let id = join(column_name, "_completeness_critical");
        let m = join(join("Critical: Only ", pct.as_str()).as_str(), "% of values are present");
        issues.push(issue(id, m, Severity::Error));
    } else if 10 * (present as u128) < 9 * (count as u128) {
        let id = join(column_name, "_completeness_warning");
        let m = join(join("Completeness is ", pct.as_str()).as_str(), "% (below 90% threshold)");
        issues.push(issue(id, m, Severity::Warning));
    } else {
        let id = join(column_name, "_completeness_info");
        let m = join(join("Completeness is ", pct.as_str()).as_str(), "%");
        issues.push(issue(id, m, Severity::Info));
    }
    issues
}

/// Whether the column looks constant: uniqueness `distinct / present` in (0, 0.02].
pub open spec fn constant_column(count: u64, missing: u64, distinct: u64) -> bool {
    let p = present_of(count, missing);
    p > 0 && distinct > 0 && 50 * distinct <= p
}

/// Whether uniqueness exceeds 0.9 (an empty column counts as fully unique).
pub open spec fn high_cardinality(count: u64, missing: u64, distinct: u64) -> bool {
    let p = present_of(count, missing);
    p == 0 || 10 * distinct > 9 * p
}

/// Uniqueness in tenths of a percent, clamped to 100%, rounded half up.
pub open spec fn uniqueness_tenths(count: u64, missing: u64, distinct: u64) -> nat {
    let p = present_of(count, missing);
    if p == 0 || distinct >= p {
        1000
    } else {
        let raw = (2000 * distinct + p) / (2 * p as int);
        if raw > 1000 {
            1000
        } else {
            raw as nat
        }
    }
}

/// The uniqueness findings of a column: a constant-column warning, and a
/// high-cardinality note for string columns.
pub fn check_uniqueness_issues(
    count: u64,
    missing: u64,
    distinct: u64,
    column_name: &str,
    inferred_type: DataType,
) -> (r: Vec<QualityIssue>)
    ensures
        ({
            let c = constant_column(count, missing, distinct);
            let h = inferred_type == DataType::String && high_cardinality(count, missing, distinct);
            &&& r@.len() == (if c { 1int } else { 0 }) + (if h { 1int } else { 0 })
            &&& c ==> r@[0].severity == Severity::Warning && r@[0].id@ == column_name@
                + "_constant_column"@ && r@[0].message@
                == "Column has only one unique value (constant)"@
            &&& h ==> r@[r@.len() - 1].severity == Severity::Info && r@[r@.len() - 1].id@
                == column_name@ + "_high_cardinality"@ && r@[r@.len() - 1].message@
                == "High cardinality: "@ + tenths_text(uniqueness_tenths(count, missing, distinct))
                + "% unique values (potential identifier or free text)"@
        }),
{
    let mut issues: Vec<QualityIssue> = Vec::new();
    let present: u64 = if missing >= count {
        0
    } else {
        count - missing
    };
    if present > 0 && distinct > 0 && 50 * (distinct as u128) <= present as u128 {
        let id = join(column_name, "_constant_column");
        let m = String::from_str("Column has only one unique value (constant)");
        issues.push(issue(id, m, Severity::Warning));
    }
    if inferred_type == DataType::String && (present == 0 || 10 * (distinct as u128) > 9 * (
    present as u128)) {
        let t: u64 = if present == 0 || distinct >= present {
            1000
        } else {
            let raw: u128 = (2000 * (distinct as u128) + present as u128) / (2 * present as u128);
            if raw > 1000 {
                1000
            } else {
                raw as u64
            }
        };
        let id = join(column_name, "_high_cardinality");
        let pct = tenths(t);
        let m = join(
            join("High cardinality: ", pct.as_str()).as_str(),
            "% unique values (potential identifier or free text)",
        );
        issues.push(issue(id, m, Severity::Info));
    }
    issues
}

/// Severity of the duplicate-rows finding: over 10% of rows an error, over 1% a
/// warning, else a note; none without duplicates.
pub open spec fn duplicate_severity(duplicate_count: u64, total_rows: u64) -> Option<Severity> {
    if duplicate_count == 0 {
        None
    } else if 10 * duplicate_count > total_rows && total_rows > 0 {
        Some(Severity::Error)
    } else if 100 * duplicate_count > total_rows && total_rows > 0 {
        Some(Severity::Warning)
    } else {
        Some(Severity::Info)
    }
}

/// Share of duplicate rows in hundredths of a percent, rounded half up.
pub open spec fn duplicate_hundredths(duplicate_count: u64, total_rows: u64) -> nat {
    if total_rows == 0 {
        0
    } else {
        let raw = (20000 * duplicate_count + total_rows) / (2 * total_rows);
        if raw > 10000 {
            10000
        } else {
            raw as nat
        }
    }
}

/// The data-set finding for `duplicate_count` duplicates among `total_rows` rows.
pub fn check_duplicate_issues(duplicate_count: u64, total_rows: u64) -> (r: Vec<QualityIssue>)
    requires
        duplicate_count <= total_rows,
    ensures
        duplicate_severity(duplicate_count, total_rows) is None ==> r@.len() == 0,
        duplicate_severity(duplicate_count, total_rows) matches Some(sev) ==> r@.len() == 1
            && r@[0].severity == sev && r@[0].id@ == "duplicate_rows"@ && r@[0].message@
            == decimal(duplicate_count as nat) + " duplicate rows detected ("@ + hundredths_text(
            duplicate_hundredths(duplicate_count, total_rows),
        ) + "% of total)"@,
{
    let mut issues: Vec<QualityIssue> = Vec::new();
    if duplicate_count == 0 {
        return issues;
    }
    let sev = if 10 * (duplicate_count as u128) > total_rows as u128 && total_rows > 0 {
        Severity::Error
    } else if 100 * (duplicate_count as u128) > total_rows as u128 && total_rows > 0 {
        Severity::Warning
    } else {
        Severity::Info
    };
    let h: u64 = if total_rows == 0 {
        0
    } else {
        let raw: u128 = (20000 * (duplicate_count as u128) + total_rows as u128) / (2
            * total_rows as u128);
        if raw > 10000 {
            10000
        } else {
            raw as u64
        }
    };
    let n = decimal_text(duplicate_count);
    let pct = hundredths(h);
    let m = join(
        join(join(n.as_str(), " duplicate rows detected (").as_str(), pct.as_str()).as_str(),
        "% of total)",
    );
    issues.push(issue(String::from_str("duplicate_rows"), m, sev));
    issues
}

} // verus!
