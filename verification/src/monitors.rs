//! Displays, as the build needs to know them.

use vstd::prelude::*;
use vstd::arithmetic::div_mod::{lemma_fundamental_div_mod, lemma_mod_multiples_vanish};
use vstd::string::*;
use crate::config::Config;
use crate::paths::{join, joined};
use crate::text::{nat_text, push_char, push_nat};

verus! {

/// One display: its size in pixels and where it lies on the desktop.
#[derive(Debug, Clone, Copy, PartialEq, Eq, Structural)]
pub struct Monitor {
    pub width: u32,
    pub height: u32,
    pub top: i32,
    pub left: i32,
}

/// `d` divides `x`.
pub open spec fn divides(d: int, x: int) -> bool {
    d > 0 && x % d == 0
}

/// The greatest common divisor, by Euclid's rule.
pub open spec fn gcd(a: nat, b: nat) -> nat
    decreases b,
{
    if b == 0 {
        a
    } else {
        gcd(b, a % b)
    }
}

/// `<width>x<height>`: the name of the directory that holds the artifacts
/// made for displays of this size.
pub open spec fn res_text(m: Monitor) -> Seq<char> {
    nat_text(m.width as nat) + seq!['x'] + nat_text(m.height as nat)
}

/// Divisors common to `a` and `b` are the divisors common to `b` and `a % b`.
proof fn lemma_euclid_step(d: int, a: int, b: int)
    requires
        d > 0,
        b > 0,
        a >= 0,
        b % d == 0,
    ensures
        (a % d == 0) == ((a % b) % d == 0),
{
    let q = a / b;
    let r = a % b;
    let k = b / d;
    lemma_fundamental_div_mod(a, b);
    lemma_fundamental_div_mod(b, d);
    assert(b == d * k);
    assert(a == d * (k * q) + r) by (nonlinear_arith)
        requires
            a == b * q + r,
            b == d * k,
    ;
    lemma_mod_multiples_vanish(k * q, r, d);
}

/// `gcd(a, b)` divides both numbers, and every number that divides both
/// divides it: it is the greatest common divisor.
pub proof fn lemma_gcd(a: nat, b: nat)
    requires
        a > 0 || b > 0,
    ensures
        gcd(a, b) > 0,
        divides(gcd(a, b) as int, a as int),
        divides(gcd(a, b) as int, b as int),
        forall|d: int|
            divides(d, a as int) && divides(d, b as int) ==> #[trigger] divides(
                d,
                gcd(a, b) as int,
            ),
        forall|d: int| divides(d, a as int) && divides(d, b as int) ==> d <= gcd(a, b),
    decreases b,
{
    if b == 0 {
        assert(a as int % a as int == 0) by (nonlinear_arith)
            requires
                a > 0,
        ;
        assert(0int % a as int == 0) by (nonlinear_arith)
            requires
                a > 0,
        ;
    } else {
        lemma_gcd(b, a % b);
        let g = gcd(b, a % b) as int;
        lemma_euclid_step(g, a as int, b as int);
        assert forall|d: int| divides(d, a as int) && divides(d, b as int) implies #[trigger] divides(
            d,
            gcd(a, b) as int,
        ) by {
            lemma_euclid_step(d, a as int, b as int);
        }
    }
    assert forall|d: int| divides(d, a as int) && divides(d, b as int) implies d <= gcd(a, b) by {
        let g = gcd(a, b) as int;
        assert(divides(d, g));
        if d > g {
            lemma_fundamental_div_mod(g, d);
            assert(g == d * (g / d));
            assert(false) by (nonlinear_arith)
                requires
                    g == d * (g / d),
                    d > g,
                    g > 0,
            ;
        }
    }
}

/// The greatest common divisor of two numbers.
pub fn gcd_of(x: u32, y: u32) -> (g: u32)
    ensures
        g == gcd(x as nat, y as nat),
{
    let mut a: u32 = x;
    let mut b: u32 = y;
    while b != 0
        invariant
            gcd(a as nat, b as nat) == gcd(x as nat, y as nat),
        decreases b,
    {
        let c = b;
        b = a % b;
        a = c;
    }
    a
}

impl Monitor {
    /// A display has at least one pixel in each direction.
    pub open spec fn wf(self) -> bool {
        self.width > 0 && self.height > 0
    }

    /// Runtime form of `wf`.
    pub fn is_valid(&self) -> (r: bool)
        ensures
            r == self.wf(),
    {
        self.width > 0 && self.height > 0
    }

    /// The width of the reduced aspect ratio.
    pub open spec fn aspect_x(self) -> nat {
        self.width as nat / gcd(self.width as nat, self.height as nat)
    }

    /// The height of the reduced aspect ratio.
    pub open spec fn aspect_y(self) -> nat {
        self.height as nat / gcd(self.width as nat, self.height as nat)
    }

    /// The aspect ratio in lowest terms.
    pub fn aspect(&self) -> (r: (u32, u32))
        requires
            self.wf(),
        ensures
            r.0 == self.aspect_x(),
            r.1 == self.aspect_y(),
    {
        let g = gcd_of(self.width, self.height);
        proof {
            lemma_gcd(self.width as nat, self.height as nat);
        }
        (self.width / g, self.height / g)
    }

    /// `<width>x<height>`.
    pub fn res_string(&self) -> (s: String)
        ensures
            s@ == res_text(*self),
    {
        let mut s = String::new();
        push_nat(&mut s, self.width as u64);
        push_char(&mut s, 'x');
        push_nat(&mut s, self.height as u64);
        proof {
            assert(s@ =~= res_text(*self));
        }
        s
    }

    /// The directory below the cache root that holds what was made for
    /// displays of this size.
    pub fn cache_dir(&self, config: &Config) -> (r: String)
        ensures
            r@ == joined(config.cache_directory@, res_text(*self)),
    {
        let name = self.res_string();
        join(config.cache_directory.as_str(), name.as_str())
    }
}

/// The mechanism by which wallpapers are applied to the displays.
#[derive(Debug, Clone, Copy, PartialEq, Eq, Structural)]
pub enum Platform {
    /// An X11 session: pixels are painted onto the root window.
    X11,
    /// The desktop shell of Windows: wallpapers are handed over as files.
    Windows,
    /// No session was found.
    Unknown,
}

/// Whether frames can be applied from memory, so that the final files
/// need not be written and read again. Only an X11 session can do this.
pub fn supports_memory_papers(platform: Platform) -> (r: bool)
    ensures
        r == (platform == Platform::X11),
{
    match platform {
        Platform::X11 => true,
        Platform::Windows => false,
        Platform::Unknown => false,
    }
}

} // verus!
