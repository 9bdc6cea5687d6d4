use vstd::prelude::*;

verus! {

/// One pixel: three 8-bit channels, no alpha.
#[derive(Clone, Copy, PartialEq, Eq, Structural, Debug)]
pub struct Pixel {
    pub r: u8,
    pub g: u8,
    pub b: u8,
}

impl Pixel {
    pub fn new(r: u8, g: u8, b: u8) -> (p: Pixel)
        ensures
            p == (Pixel { r, g, b }),
    {
        Pixel { r, g, b }
    }
}

/// A ranking criterion: a named, total, deterministic map from a pixel to an
/// unsigned key. Pixels with a larger key sort later.
#[derive(Clone, Copy, PartialEq, Eq, Structural, Debug)]
pub enum Criterion {
    Red,
    Green,
    Blue,
    Average,
    Hue,
    Saturation,
    Lightness,
}

pub open spec fn max3(a: int, b: int, c: int) -> int {
    if a >= b && a >= c {
        a
    } else if b >= c {
        b
    } else {
        c
    }
}

pub open spec fn min3(a: int, b: int, c: int) -> int {
    if a <= b && a <= c {
        a
    } else if b <= c {
        b
    } else {
        c
    }
}

/// The absolute value of `x`.
pub open spec fn abs(x: int) -> int {
    if x < 0 {
        -x
    } else {
        x
    }
}

/// Hue in degrees, `60 * h` truncated, where `h` is `((g - b) / delta) mod 6`
/// when red is the maximum, `(b - r) / delta + 2` when green is, and
/// `(r - g) / delta + 4` otherwise. Channels are taken as fractions of 255;
/// every ratio below is the same with or without that scaling. For a positive
/// divisor, `/` rounds down and `%` lies in `[0, divisor)`.
pub open spec fn hue_of(p: Pixel) -> int {
    let (r, g, b) = (p.r as int, p.g as int, p.b as int);
    let hi = max3(r, g, b);
    let lo = min3(r, g, b);
    let delta = hi - lo;
    if delta == 0 {
        0
    } else if hi == r {
        (60 * (g - b) / delta) % 360
    } else if hi == g {
        120 + 60 * (b - r) / delta
    } else {
        240 + 60 * (r - g) / delta
    }
}

/// HSL saturation `delta / (1 - |2L - 1|)`, truncated. Scaled by 255,
/// `1 - |2L - 1|` is `255 - |hi + lo - 255|`.
pub open spec fn saturation_of(p: Pixel) -> int {
    let (r, g, b) = (p.r as int, p.g as int, p.b as int);
    let hi = max3(r, g, b);
    let lo = min3(r, g, b);
    let delta = hi - lo;
    if delta == 0 {
        0
    } else {
        delta / (255 - abs(hi + lo - 255))
    }
}

/// HSL lightness `(max + min) / 2` on channels in `[0, 1]`, truncated.
pub open spec fn lightness_of(p: Pixel) -> int {
    let (r, g, b) = (p.r as int, p.g as int, p.b as int);
    let hi = max3(r, g, b);
    let lo = min3(r, g, b);
    if hi - lo == 0 {
        0
    } else {
        (hi + lo) / 510
    }
}

impl Criterion {
    /// The ranking key of `p` under this criterion.
    pub open spec fn key_of(self, p: Pixel) -> int {
        match self {
            Criterion::Red => p.r as int,
            Criterion::Green => p.g as int,
            Criterion::Blue => p.b as int,
            Criterion::Average => (p.r as int + p.g as int + p.b as int) / 3,
            Criterion::Hue => hue_of(p),
            Criterion::Saturation => saturation_of(p),
            Criterion::Lightness => lightness_of(p),
        }
    }
}


fn max_channel(p: &Pixel) -> (m: u32)
    ensures
        m as int == max3(p.r as int, p.g as int, p.b as int),
{
    let (r, g, b) = (p.r as u32, p.g as u32, p.b as u32);
    if r >= g && r >= b {
        r
    } else if g >= b {
        g
    } else {
        b
    }
}

fn min_channel(p: &Pixel) -> (m: u32)
    ensures
        m as int == min3(p.r as int, p.g as int, p.b as int),
{
    let (r, g, b) = (p.r as u32, p.g as u32, p.b as u32);
    if r <= g && r <= b {
        r
    } else if g <= b {
        g
    } else {
        b
    }
}

pub fn get_red(p: &Pixel) -> (k: u32)
    ensures
        k as int == Criterion::Red.key_of(*p),
{
    p.r as u32
}

pub fn get_green(p: &Pixel) -> (k: u32)
    ensures
        k as int == Criterion::Green.key_of(*p),
{
    p.g as u32
}

pub fn get_blue(p: &Pixel) -> (k: u32)
    ensures
        k as int == Criterion::Blue.key_of(*p),
{
    p.b as u32
}

pub fn get_average(p: &Pixel) -> (k: u32)
    ensures
        k as int == Criterion::Average.key_of(*p),
{
    (p.r as u32 + p.g as u32 + p.b as u32) / 3
}

pub fn get_hue(p: &Pixel) -> (k: u32)
    ensures
        k as int == Criterion::Hue.key_of(*p),
{
    let (r, g, b) = (p.r as u32, p.g as u32, p.b as u32);
    let hi = max_channel(p);
    let lo = min_channel(p);
    let delta = hi - lo;
    if delta == 0 {
        0
    } else if hi == r {
        proof {
            lemma_scaled_quotient(g as int - b as int, delta as int, 360);
        }
        let q = if g >= b {
            60 * (g - b) / delta
        } else {
            (360 * delta - 60 * (b - g)) / delta
        };
        proof {
            let v = 60 * (g as int - b as int) / delta as int;
            if g >= b {
                vstd::arithmetic::div_mod::lemma_fundamental_div_mod_converse(v, 360, 0, v);
            } else {
                assert(60 * (g as int - b as int) + 360 * delta == 360 * delta - 60 * (b - g));
                vstd::arithmetic::div_mod::lemma_fundamental_div_mod_converse(v, 360, -1, v + 360);
            }
        }
        q
    } else if hi == g {
        proof {
            lemma_scaled_quotient(b as int - r as int, delta as int, 120);
        }
        if b >= r {
            120 + 60 * (b - r) / delta
        } else {
            assert(60 * (b as int - r as int) + 120 * delta == 120 * delta - 60 * (r - b));
            (120 * delta - 60 * (r - b)) / delta
        }
    } else {
        proof {
            lemma_scaled_quotient(r as int - g as int, delta as int, 240);
        }
        if r >= g {
            240 + 60 * (r - g) / delta
        } else {
            assert(60 * (r as int - g as int) + 240 * delta == 240 * delta - 60 * (g - r));
            (240 * delta - 60 * (g - r)) / delta
        }
    }
}

/// For `|n| <= d`, `60 * n / d` lies in `[-60, 60]`, is negative exactly when
/// `n` is, and adding a whole multiple of `d` to the numerator adds it to the
/// quotient.
proof fn lemma_scaled_quotient(n: int, d: int, base: int)
    requires
        0 < d,
        -d <= n <= d,
    ensures
        -60 <= 60 * n / d <= 60,
        n < 0 ==> 60 * n / d < 0,
        n >= 0 ==> 60 * n / d >= 0,
        (60 * n + base * d) / d == base + 60 * n / d,
{
    let m = 60 * n;
    let (q, r) = (m / d, m % d);
    vstd::arithmetic::div_mod::lemma_fundamental_div_mod(m, d);
    vstd::arithmetic::div_mod::lemma_mod_bound(m, d);
    assert(-60 <= q <= 60 && (n < 0 ==> q < 0) && (n >= 0 ==> q >= 0)) by (nonlinear_arith)
        requires m == 60 * n, -d <= n <= d, 0 < d, m == d * q + r, 0 <= r < d;
    assert(m + base * d == (q + base) * d + r) by (nonlinear_arith)
        requires m == d * q + r;
    vstd::arithmetic::div_mod::lemma_fundamental_div_mod_converse(m + base * d, d, q + base, r);
}

pub fn get_saturation(p: &Pixel) -> (k: u32)
    ensures
        k as int == Criterion::Saturation.key_of(*p),
{
    let hi = max_channel(p);
    let lo = min_channel(p);
    let delta = hi - lo;
    if delta == 0 {
        0
    } else {
        let denom: u32 = if hi + lo >= 255 { 510 - hi - lo } else { hi + lo };
        assert(255 - abs(hi + lo - 255) == denom);
        delta / denom
    }
}

pub fn get_lightness(p: &Pixel) -> (k: u32)
    ensures
        k as int == Criterion::Lightness.key_of(*p),
{
    let hi = max_channel(p);
    let lo = min_channel(p);
    if hi - lo == 0 {
        0
    } else {
        (hi + lo) / 510
    }
}

impl Criterion {
    /// Every criterion, in the order in which a batch run visits them.
    pub open spec fn all_spec() -> Seq<Criterion> {
        seq![
            Criterion::Red,
            Criterion::Green,
            Criterion::Blue,
            Criterion::Average,
            Criterion::Hue,
            Criterion::Saturation,
            Criterion::Lightness,
        ]
    }

    pub fn all() -> (v: Vec<Criterion>)
        ensures
            v@ == Self::all_spec(),
    {
        let v = vec![
            Criterion::Red,
            Criterion::Green,
            Criterion::Blue,
            Criterion::Average,
            Criterion::Hue,
            Criterion::Saturation,
            Criterion::Lightness,
        ];
        assert(v@ =~= Self::all_spec());
        v
    }

    /// The ranking key of `p` under this criterion.
    pub fn key(&self, p: &Pixel) -> (k: u32)
        ensures
            k as int == self.key_of(*p),
    {
        match self {
            Criterion::Red => get_red(p),
            Criterion::Green => get_green(p),
            Criterion::Blue => get_blue(p),
            Criterion::Average => get_average(p),
            Criterion::Hue => get_hue(p),
            Criterion::Saturation => get_saturation(p),
            Criterion::Lightness => get_lightness(p),
        }
    }

    /// The name under which output files of this criterion are written.
    pub open spec fn name_spec(self) -> Seq<char> {
        match self {
            Criterion::Red => seq!['R', 'e', 'd'],
            Criterion::Green => seq!['G', 'r', 'e', 'e', 'n'],
            Criterion::Blue => seq!['B', 'l', 'u', 'e'],
            Criterion::Average => seq!['A', 'v', 'e', 'r', 'a', 'g', 'e'],
            Criterion::Hue => seq!['H', 'u', 'e'],
            Criterion::Saturation => seq!['S', 'a', 't', 'u', 'r', 'a', 't', 'i', 'o', 'n'],
            Criterion::Lightness => seq!['L', 'i', 'g', 'h', 't', 'n', 'e', 's', 's'],
        }
    }

    pub fn name(&self) -> (s: &'static str)
        ensures
            s@ == self.name_spec(),
    {
        match self {
            Criterion::Red => {
                proof { reveal_strlit("Red"); }
                "Red"
            },
            Criterion::Green => {
                proof { reveal_strlit("Green"); }
                "Green"
            },
            Criterion::Blue => {
                proof { reveal_strlit("Blue"); }
                "Blue"
            },
            Criterion::Average => {
                proof { reveal_strlit("Average"); }
                "Average"
            },
            Criterion::Hue => {
                proof { reveal_strlit("Hue"); }
                "Hue"
            },
            Criterion::Saturation => {
                proof { reveal_strlit("Saturation"); }
                "Saturation"
            },
            Criterion::Lightness => {
                proof { reveal_strlit("Lightness"); }
                "Lightness"
            },
        }
    }
}

/// Every key lies in a bounded range: a channel, an average, a saturation and
/// a lightness lie in `[0, 255]`; a hue lies in `[0, 360)`.
pub proof fn lemma_key_bounds(c: Criterion, p: Pixel)
    ensures
        0 <= c.key_of(p),
        c != Criterion::Hue ==> c.key_of(p) <= 255,
        c == Criterion::Hue ==> c.key_of(p) < 360,
{
    let (r, g, b) = (p.r as int, p.g as int, p.b as int);
    let hi = max3(r, g, b);
    let lo = min3(r, g, b);
    let delta = hi - lo;
    assert(0 <= lo <= hi <= 255);
    if delta > 0 {
        lemma_scaled_quotient(g - b, delta, 0);
        lemma_scaled_quotient(b - r, delta, 0);
        lemma_scaled_quotient(r - g, delta, 0);
        vstd::arithmetic::div_mod::lemma_mod_bound(60 * (g - b) / delta, 360);
        let den = 255 - abs(hi + lo - 255);
        assert(0 < den);
        assert(delta <= den);
        assert(delta / den <= 1) by (nonlinear_arith)
            requires 0 < den, 0 <= delta <= den;
        assert((hi + lo) / 510 <= 1) by (nonlinear_arith)
            requires 0 <= hi + lo <= 510;
    }
}

} // verus!
