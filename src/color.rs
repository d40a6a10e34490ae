use vstd::prelude::*;

use crate::ratio::Ratio;

verus! {

/// A colour as three 8-bit channels.
#[derive(Clone, Copy, Debug, PartialEq, Eq)]
pub struct Rgb8 {
    pub r: u8,
    pub g: u8,
    pub b: u8,
}

/// Hue, saturation and luminosity of a colour, as exact ratios.
///
/// Hue lies in `[0, 360)`, saturation and luminosity in `[0, 1]`.
#[derive(Clone, Copy, Debug, PartialEq, Eq)]
pub struct Hsl {
    pub hue: Ratio,
    pub saturation: Ratio,
    pub luminosity: Ratio,
}

/// The three metrics that a filter can select and a span can be sorted by.
#[derive(Clone, Copy, Debug, PartialEq, Eq)]
pub enum HslComponent {
    Hue,
    Saturation,
    Luminosity,
}

/// A pixel: its colour and the HSL triple derived from it once, at load.
#[derive(Clone, Copy, Debug, PartialEq, Eq)]
pub struct Pixel {
    pub rgb: Rgb8,
    pub hsl: Hsl,
}

pub open spec fn max3(a: int, b: int, c: int) -> int {
    if a >= b && a >= c {
        a
    } else if b >= c {
        b
    } else {
        c
    }
}

pub open spec fn min3(a: int, b: int, c: int) -> int {
    if a <= b && a <= c {
        a
    } else if b <= c {
        b
    } else {
        c
    }
}

/// Hue of a chromatic colour, as a numerator over `max - min`, before a
/// negative value is moved into `[0, 360)`.
///
/// With channels normalised to `[0, 1]` this is `60 * (G - B) / (max - min)`
/// when red is the largest channel, `60 * (2 + (B - R) / (max - min))` when
/// green is, and `60 * (4 + (R - G) / (max - min))` when blue is; the factor
/// `1 / 255` of the normalisation cancels.
pub open spec fn raw_hue_num(c: Rgb8) -> int {
    let mx = max3(c.r as int, c.g as int, c.b as int);
    let d = mx - min3(c.r as int, c.g as int, c.b as int);
    if c.r == mx {
        60 * (c.g - c.b)
    } else if c.g == mx {
        120 * d + 60 * (c.b - c.r)
    } else {
        240 * d + 60 * (c.r - c.g)
    }
}

/// The HSL triple of a colour.
///
/// Luminosity is `(max + min) / 2` of the normalised channels, that is
/// `(max + min) / 510`. Saturation is `(max - min) / (1 - |2L - 1|)`, which
/// over the raw channels reads `(max - min) / (255 - |max + min - 255|)`. An
/// achromatic colour (`max == min`) has saturation and hue `0`; every other
/// colour has `0 < max + min < 510`, so the luminosity is below `1` and the
/// denominator is positive. A negative hue has `360` added.
pub open spec fn hsl_of(c: Rgb8) -> Hsl {
    let mx = max3(c.r as int, c.g as int, c.b as int);
    let mn = min3(c.r as int, c.g as int, c.b as int);
    let luminosity = Ratio { num: (mx + mn) as i64, den: 510 };
    if mx == mn {
        Hsl { hue: Ratio { num: 0, den: 1 }, saturation: Ratio { num: 0, den: 1 }, luminosity }
    } else {
        let d = mx - mn;
        let spread = if mx + mn >= 255 {
            mx + mn - 255
        } else {
            255 - (mx + mn)
        };
        let raw = raw_hue_num(c);
        Hsl {
            hue: Ratio {
                num: (if raw >= 0 {
                    raw
                } else {
                    raw + 360 * d
                }) as i64,
                den: d as i64,
            },
            saturation: Ratio { num: d as i64, den: (255 - spread) as i64 },
            luminosity,
        }
    }
}

/// The value of one metric of a pixel.
pub open spec fn metric_of(p: Pixel, kind: HslComponent) -> Ratio {
    match kind {
        HslComponent::Hue => p.hsl.hue,
        HslComponent::Saturation => p.hsl.saturation,
        HslComponent::Luminosity => p.hsl.luminosity,
    }
}

impl Pixel {
    /// The HSL triple is the one derived from the colour.
    pub open spec fn wf(self) -> bool {
        self.hsl == hsl_of(self.rgb)
    }

    /// A pixel of the given colour, with its HSL triple.
    pub fn new(red: u8, green: u8, blue: u8) -> (p: Pixel)
        ensures
            p.rgb == (Rgb8 { r: red, g: green, b: blue }),
            p.wf(),
    {
        let rgb = Rgb8 { r: red, g: green, b: blue };
        Pixel { rgb, hsl: calculate_hsl(rgb) }
    }

    /// The value of the given metric.
    pub fn metric(&self, kind: HslComponent) -> (r: Ratio)
        ensures
            r == metric_of(*self, kind),
    {
        match kind {
            HslComponent::Hue => self.hsl.hue,
            HslComponent::Saturation => self.hsl.saturation,
            HslComponent::Luminosity => self.hsl.luminosity,
        }
    }
}

/// Every metric of a well-formed pixel is a well-formed ratio.
pub proof fn lemma_metric_wf(p: Pixel, kind: HslComponent)
    requires
        p.wf(),
    ensures
        metric_of(p, kind).wf(),
{
}

/// Converts a colour to hue, saturation and luminosity, exactly.
pub fn calculate_hsl(rgb_values: Rgb8) -> (hsl: Hsl)
    ensures
        hsl == hsl_of(rgb_values),
{
    let red: i64 = rgb_values.r as i64;
    let green: i64 = rgb_values.g as i64;
    let blue: i64 = rgb_values.b as i64;
    let max: i64 = if red >= green && red >= blue {
        red
    } else if green >= blue {
        green
    } else {
        blue
    };
    let min: i64 = if red <= green && red <= blue {
        red
    } else if green <= blue {
        green
    } else {
        blue
    };
    let luminosity = Ratio { num: max + min, den: 510 };
    if max == min {
        return Hsl {
            hue: Ratio { num: 0, den: 1 },
            saturation: Ratio { num: 0, den: 1 },
            luminosity,
        };
    }
    let delta: i64 = max - min;
    let spread: i64 = if max + min >= 255 {
        max + min - 255
    } else {
        255 - (max + min)
    };
    let saturation = Ratio { num: delta, den: 255 - spread };
    let raw: i64 = if red == max {
        60 * (green - blue)
    } else if green == max {
        120 * delta + 60 * (blue - red)
    } else {
        240 * delta + 60 * (red - green)
    };
    let hue_num: i64 = if raw >= 0 {
        raw
    } else {
        raw + 360 * delta
    };
    Hsl { hue: Ratio { num: hue_num, den: delta }, saturation, luminosity }
}

/// Hue lies in `[0, 360)`, saturation and luminosity in `[0, 1]`.
pub proof fn lemma_hsl_in_range(c: Rgb8)
    ensures
        0 <= hsl_of(c).hue.num < 360 * hsl_of(c).hue.den,
        0 <= hsl_of(c).saturation.num <= hsl_of(c).saturation.den,
        0 <= hsl_of(c).luminosity.num <= hsl_of(c).luminosity.den,
{
}

} // verus!
