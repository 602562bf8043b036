//! The filter parameters that the menus edit, and the values they start with.

use crate::scalar::Scalar;
use vstd::prelude::*;

verus! {

/// The parameters of the filters.
#[derive(Clone, Copy, PartialEq, Eq, Structural, Debug)]
pub struct FilterSettings {
    /// Gaussian blur radius, in pixels.
    pub filter_radius: Scalar,
    /// Sharpening.
    pub filter_amount: Scalar,
    /// Pixelate block, in pixels.
    pub filter_block: Scalar,
    /// High pass radius, in pixels.
    pub high_pass_radius: Scalar,
    /// High pass gain.
    pub high_pass_amount: Scalar,
    /// Motion blur angle, in degrees.
    pub motion_angle: Scalar,
    /// Motion blur taps to each side.
    pub motion_distance: Scalar,
    /// Box blur radius, in pixels.
    pub box_radius: Scalar,
    /// Radial blur: degrees of a spin, per cent of a zoom.
    pub radial_amount: Scalar,
    /// Radial blur samples.
    pub radial_samples: u32,
    /// Radial blur spins; it zooms otherwise.
    pub radial_spin: bool,
    /// Tilt-shift focus line, in canvas heights.
    pub tilt_center: Scalar,
    /// Half the tilt-shift sharp band, in pixels.
    pub tilt_half_band: Scalar,
    /// Tilt-shift ramp, in pixels.
    pub tilt_feather: Scalar,
    /// Tilt-shift blur, in pixels.
    pub tilt_radius: Scalar,
    /// Tilt-shift angle, in degrees.
    pub tilt_angle: Scalar,
    /// Iris blur radii, in pixels.
    pub iris_rx: Scalar,
    pub iris_ry: Scalar,
    /// Iris blur feather, in radii.
    pub iris_feather: Scalar,
    /// Iris blur radius, in pixels.
    pub iris_radius: Scalar,
    /// Spin blur angle, in degrees.
    pub spin_angle: Scalar,
    /// Spin blur samples.
    pub spin_samples: u32,
    /// Twirl angle, in degrees.
    pub twirl_angle: Scalar,
    /// Twirl radius, in pixels.
    pub twirl_radius: Scalar,
    /// Pinch; a bulge where negative.
    pub pinch_amount: Scalar,
    /// Pinch radius, in pixels.
    pub pinch_radius: Scalar,
    /// Ripple amplitude, in pixels.
    pub ripple_amplitude: Scalar,
    /// Ripple wavelength, in pixels.
    pub ripple_wavelength: Scalar,
    /// Polar coordinates: from rectangular; to rectangular otherwise.
    pub polar_to_polar: bool,
    /// Find edges step, in pixels.
    pub edge_width: Scalar,
    /// Emboss angle, in degrees.
    pub emboss_angle: Scalar,
    /// Emboss gain.
    pub emboss_amount: Scalar,
    /// Emboss step, in pixels.
    pub emboss_width: Scalar,
    /// Glowing edges gain.
    pub glow_brightness: Scalar,
    /// Glowing edges step, in pixels.
    pub glow_width: Scalar,
    /// Diffuse distance, in pixels.
    pub diffuse_amount: Scalar,
    pub diffuse_seed: Scalar,
    /// Oil paint radius, in pixels.
    pub oil_paint_radius: Scalar,
    /// Posterize levels.
    pub posterize_levels: u32,
    /// Threshold luma.
    pub threshold_level: Scalar,
    /// Noise strength.
    pub noise_amount: Scalar,
    /// The same noise on every channel.
    pub noise_mono: bool,
    /// Gaussian noise; uniform otherwise.
    pub noise_gaussian: bool,
    pub noise_seed: Scalar,
    /// Median radius, in pixels.
    pub median_radius: Scalar,
    /// Dust and scratches threshold.
    pub dust_threshold: Scalar,
    /// Mosaic and crystallize cell, in pixels.
    pub mosaic_cell: Scalar,
    pub crystallize_seed: Scalar,
    /// Halftone cell, in pixels.
    pub halftone_cell: Scalar,
    /// Halftone angle, in degrees.
    pub halftone_angle: Scalar,
    /// Mezzotint bias.
    pub mezzotint_amount: Scalar,
    pub mezzotint_seed: Scalar,
    pub clouds_seed: Scalar,
    /// Cloud feature size, in pixels.
    pub clouds_scale: Scalar,
    /// Cloud falloff per octave.
    pub clouds_roughness: Scalar,
    /// Cloud octaves.
    pub clouds_octaves: u32,
}

impl FilterSettings {
    /// The values that the parameters start with.
    pub open spec fn starting() -> FilterSettings {
        FilterSettings {
            filter_radius: Scalar { bits: 0x4080_0000 },
            filter_amount: Scalar { bits: 0x3f80_0000 },
            filter_block: Scalar { bits: 0x4100_0000 },
            high_pass_radius: Scalar { bits: 0x4040_0000 },
            high_pass_amount: Scalar { bits: 0x3f80_0000 },
            motion_angle: Scalar { bits: 0 },
            motion_distance: Scalar { bits: 0x4140_0000 },
            box_radius: Scalar { bits: 0x4080_0000 },
            radial_amount: Scalar { bits: 0x4170_0000 },
            radial_samples: 24,
            radial_spin: true,
            tilt_center: Scalar { bits: 0x3f00_0000 },
            tilt_half_band: Scalar { bits: 0x4270_0000 },
            tilt_feather: Scalar { bits: 0x42f0_0000 },
            tilt_radius: Scalar { bits: 0x4140_0000 },
            tilt_angle: Scalar { bits: 0 },
            iris_rx: Scalar { bits: 0x4348_0000 },
            iris_ry: Scalar { bits: 0x4316_0000 },
            iris_feather: Scalar { bits: 0x3f00_0000 },
            iris_radius: Scalar { bits: 0x4160_0000 },
            spin_angle: Scalar { bits: 0x4170_0000 },
            spin_samples: 24,
            twirl_angle: Scalar { bits: 0x42b4_0000 },
            twirl_radius: Scalar { bits: 0x4348_0000 },
            pinch_amount: Scalar { bits: 0x3f00_0000 },
            pinch_radius: Scalar { bits: 0x4348_0000 },
            ripple_amplitude: Scalar { bits: 0x4100_0000 },
            ripple_wavelength: Scalar { bits: 0x4220_0000 },
            polar_to_polar: true,
            edge_width: Scalar { bits: 0x3f80_0000 },
            emboss_angle: Scalar { bits: 0x4307_0000 },
            emboss_amount: Scalar { bits: 0x4080_0000 },
            emboss_width: Scalar { bits: 0x3f80_0000 },
            glow_brightness: Scalar { bits: 0x40c0_0000 },
            glow_width: Scalar { bits: 0x3f80_0000 },
            diffuse_amount: Scalar { bits: 0x4080_0000 },
            diffuse_seed: Scalar { bits: 0x3f80_0000 },
            oil_paint_radius: Scalar { bits: 0x4040_0000 },
            posterize_levels: 4,
            threshold_level: Scalar { bits: 0x3f00_0000 },
            noise_amount: Scalar { bits: 0x3dcc_cccd },
            noise_mono: false,
            noise_gaussian: true,
            noise_seed: Scalar { bits: 0x3f80_0000 },
            median_radius: Scalar { bits: 0x3f80_0000 },
            dust_threshold: Scalar { bits: 0x3dcc_cccd },
            mosaic_cell: Scalar { bits: 0x4100_0000 },
            crystallize_seed: Scalar { bits: 0x3f80_0000 },
            halftone_cell: Scalar { bits: 0x4100_0000 },
            halftone_angle: Scalar { bits: 0x4234_0000 },
            mezzotint_amount: Scalar { bits: 0x3f00_0000 },
            mezzotint_seed: Scalar { bits: 0x3f80_0000 },
            clouds_seed: Scalar { bits: 0x3f80_0000 },
            clouds_scale: Scalar { bits: 0x4200_0000 },
            clouds_roughness: Scalar { bits: 0x3f00_0000 },
            clouds_octaves: 5,
        }
    }
}

impl Default for FilterSettings {
    fn default() -> (r: FilterSettings)
        ensures
            r == FilterSettings::starting(),
    {
        FilterSettings {
            filter_radius: Scalar { bits: 0x4080_0000 },
            filter_amount: Scalar { bits: 0x3f80_0000 },
            filter_block: Scalar { bits: 0x4100_0000 },
            high_pass_radius: Scalar { bits: 0x4040_0000 },
            high_pass_amount: Scalar { bits: 0x3f80_0000 },
            motion_angle: Scalar { bits: 0 },
            motion_distance: Scalar { bits: 0x4140_0000 },
            box_radius: Scalar { bits: 0x4080_0000 },
            radial_amount: Scalar { bits: 0x4170_0000 },
            radial_samples: 24,
            radial_spin: true,
            tilt_center: Scalar { bits: 0x3f00_0000 },
            tilt_half_band: Scalar { bits: 0x4270_0000 },
            tilt_feather: Scalar { bits: 0x42f0_0000 },
            tilt_radius: Scalar { bits: 0x4140_0000 },
            tilt_angle: Scalar { bits: 0 },
            iris_rx: Scalar { bits: 0x4348_0000 },
            iris_ry: Scalar { bits: 0x4316_0000 },
            iris_feather: Scalar { bits: 0x3f00_0000 },
            iris_radius: Scalar { bits: 0x4160_0000 },
            spin_angle: Scalar { bits: 0x4170_0000 },
            spin_samples: 24,
            twirl_angle: Scalar { bits: 0x42b4_0000 },
            twirl_radius: Scalar { bits: 0x4348_0000 },
            pinch_amount: Scalar { bits: 0x3f00_0000 },
            pinch_radius: Scalar { bits: 0x4348_0000 },
            ripple_amplitude: Scalar { bits: 0x4100_0000 },
            ripple_wavelength: Scalar { bits: 0x4220_0000 },
            polar_to_polar: true,
            edge_width: Scalar { bits: 0x3f80_0000 },
            emboss_angle: Scalar { bits: 0x4307_0000 },
            emboss_amount: Scalar { bits: 0x4080_0000 },
            emboss_width: Scalar { bits: 0x3f80_0000 },
            glow_brightness: Scalar { bits: 0x40c0_0000 },
            glow_width: Scalar { bits: 0x3f80_0000 },
            diffuse_amount: Scalar { bits: 0x4080_0000 },
            diffuse_seed: Scalar { bits: 0x3f80_0000 },
            oil_paint_radius: Scalar { bits: 0x4040_0000 },
            posterize_levels: 4,
            threshold_level: Scalar { bits: 0x3f00_0000 },
            noise_amount: Scalar { bits: 0x3dcc_cccd },
            noise_mono: false,
            noise_gaussian: true,
            noise_seed: Scalar { bits: 0x3f80_0000 },
            median_radius: Scalar { bits: 0x3f80_0000 },
            dust_threshold: Scalar { bits: 0x3dcc_cccd },
            mosaic_cell: Scalar { bits: 0x4100_0000 },
            crystallize_seed: Scalar { bits: 0x3f80_0000 },
            halftone_cell: Scalar { bits: 0x4100_0000 },
            halftone_angle: Scalar { bits: 0x4234_0000 },
            mezzotint_amount: Scalar { bits: 0x3f00_0000 },
            mezzotint_seed: Scalar { bits: 0x3f80_0000 },
            clouds_seed: Scalar { bits: 0x3f80_0000 },
            clouds_scale: Scalar { bits: 0x4200_0000 },
            clouds_roughness: Scalar { bits: 0x3f00_0000 },
            clouds_octaves: 5,
        }
    }
}

} // verus!
