//! Diffuse reflectance: the cosine between the light direction and the
//! surface normal, in `UNIT`-ths.

use vstd::prelude::*;
use crate::arith::{floor_sqrt, lemma_power_of_two_60, lemma_square_monotonic, scaled_quotient};
use crate::colors::UNIT;
use crate::vector::{lemma_dot_bound, lemma_product_bound, Vec3};

verus! {

/// `level / UNIT` is the cosine of the angle between two vectors, rounded
/// down to a `UNIT`-th and limited to one. The vectors have the positive dot
/// product `dot`, and `lengths` is the product of their squared norms, so the
/// cosine is `dot / sqrt(lengths)`.
pub open spec fn is_cosine_level(level: int, dot: int, lengths: int) -> bool {
    &&& 0 <= level <= UNIT
    &&& (level * level) * lengths <= (UNIT * UNIT) * (dot * dot)
    &&& level < UNIT ==> (UNIT * UNIT) * (dot * dot) < ((level + 1) * (level + 1)) * lengths
}

/// The intensity of the light that a surface with the given normal reflects
/// when the light lies in the given direction: the cosine of the angle
/// between them where that is positive, and nothing where the light is
/// behind the surface, which is also where one of the vectors has no length.
pub open spec fn diffuse_level(light_direction: Vec3, normal: Vec3) -> int {
    let dot = light_direction.dot(normal);
    let lengths = light_direction.length_squared() * normal.length_squared();
    if dot <= 0 {
        0
    } else {
        choose|level: int| is_cosine_level(level, dot, lengths)
    }
}

/// For given vectors one level only is the rounded cosine.
pub proof fn lemma_cosine_level_unique(first: int, second: int, dot: int, lengths: int)
    requires
        lengths > 0,
        is_cosine_level(first, dot, lengths),
        is_cosine_level(second, dot, lengths),
    ensures
        first == second,
{
    if first < second {
        lemma_levels_apart(first, second, lengths);
    } else if second < first {
        lemma_levels_apart(second, first, lengths);
    }
}

proof fn lemma_levels_apart(low: int, high: int, lengths: int)
    by (nonlinear_arith)
    requires
        0 <= low < high,
        lengths > 0,
    ensures
        ((low + 1) * (low + 1)) * lengths <= (high * high) * lengths,
{
}

proof fn lemma_scale_order(a: int, b: int, lengths: int)
    by (nonlinear_arith)
    requires
        0 <= a <= b,
        lengths >= 0,
    ensures
        a * lengths <= b * lengths,
{
}

/// Computes [`diffuse_level`].
pub fn diffuse_intensity(light_direction: Vec3, normal: Vec3) -> (level: u32)
    ensures
        level == diffuse_level(light_direction, normal),
        level <= UNIT,
{
    let dot: i128 = light_direction.dot_product(normal);
    if dot <= 0 {
        return 0;
    }
    let toward: u64 = light_direction.norm_squared();
    let outward: u64 = normal.norm_squared();
    proof {
        lemma_product_bound(light_direction.x as int, normal.x as int);
        lemma_product_bound(light_direction.y as int, normal.y as int);
        lemma_product_bound(light_direction.z as int, normal.z as int);
        lemma_product_bound(light_direction.x as int, light_direction.x as int);
        lemma_product_bound(light_direction.y as int, light_direction.y as int);
        lemma_product_bound(light_direction.z as int, light_direction.z as int);
        lemma_product_bound(normal.x as int, normal.x as int);
        lemma_product_bound(normal.y as int, normal.y as int);
        lemma_product_bound(normal.z as int, normal.z as int);
        assert(toward * outward <= 0xc000_0000_0000_0000 * 0xc000_0000_0000_0000)
            by (nonlinear_arith)
            requires
                toward <= 0xc000_0000_0000_0000,
                outward <= 0xc000_0000_0000_0000,
        ;
        assert(dot * dot <= 0xc000_0000_0000_0000 * 0xc000_0000_0000_0000) by (nonlinear_arith)
            requires
                0 < dot <= 0xc000_0000_0000_0000,
        ;
        assert(dot * dot > 0) by (nonlinear_arith)
            requires
                0 < dot,
        ;
    }
    let lengths: u128 = toward as u128 * outward as u128;
    proof {
        lemma_dot_bound(light_direction, normal);
    }
    let size: u128 = dot as u128;
    let square: u128 = size * size;
    assert(square == dot * dot);
    let level: u32 = if square >= lengths {
        assert((UNIT * UNIT) * lengths <= (UNIT * UNIT) * (dot * dot)) by (nonlinear_arith)
            requires
                lengths <= dot * dot,
        ;
        UNIT
    } else {
        let ratio: u64 = scaled_quotient(square, lengths);
        let root: u32 = floor_sqrt(ratio);
        proof {
            lemma_power_of_two_60();
            if root >= 0x4000_0000 {
                lemma_square_monotonic(0x4000_0000, root as int);
            }
            lemma_scale_order(root * root, ratio as int, lengths as int);
            lemma_scale_order(ratio + 1, (root + 1) * (root + 1), lengths as int);
            assert((UNIT * UNIT) * (dot * dot) == square * 0x1000_0000_0000_0000)
                by (nonlinear_arith)
                requires
                    square == dot * dot,
                    UNIT == 0x4000_0000,
            ;
            assert((root * root) * lengths <= (UNIT * UNIT) * (dot * dot));
            assert((UNIT * UNIT) * (dot * dot) < ((root + 1) * (root + 1)) * lengths);
            assert(is_cosine_level(root as int, dot as int, lengths as int));
        }
        root
    };
    proof {
        assert(is_cosine_level(level as int, dot as int, lengths as int));
        let chosen = choose|l: int| is_cosine_level(l, dot as int, lengths as int);
        lemma_cosine_level_unique(level as int, chosen, dot as int, lengths as int);
    }
    level
}

} // verus!
