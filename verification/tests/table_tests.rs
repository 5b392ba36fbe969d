use pvm_modules::math_lib::{compound, MathError};
use pvm_modules::yield_optimizer::{optimize, OptimizerError, OptimizerInput};

const OVERFLOW: Result<u128, MathError> = Err(MathError::Overflow);

/// Amounts worked out in arbitrary-precision arithmetic for a spread of arguments.
#[test]
fn test_compound_table() {
    let table: [(u128, u32, u32, Result<u128, MathError>); 48] = [
        (607_702_075_526_849_560_519_462_028, 4_089, 3, Ok(891_599_342_739_416_225_673_541_538)),
        (3_678_473_160_000, 3_088, 365, Ok(5_008_653_972_669)),
        (1, 2_379_016_880, 2, Ok(14_149_440_795)),
        (182, 2_460, 7, Ok(228)),
        (86_292_747_421_035_847_125_224_534_619_305_547_943, 4_826, 2, OVERFLOW),
        (477_201_606_000, 1_952_001_079, 12, OVERFLOW),
        (801_663_836_605_440_089_470_869_141, 7_394, 3, Ok(1_552_509_619_442_082_020_972_606_390)),
        (585_815_893_912_968_186_070_164_753, 50_559, 365, Ok(88_805_955_726_631_348_362_846_786_394)),
        (4_065_850_570, 167, 365, Ok(4_134_318_643)),
        (8_029_404_200, 3_337, 365, Ok(11_208_336_813)),
        (170_141_183_460_469_231_731_687_303_715_884_105_728, 1_077_083_707, 0, Ok(170_141_183_460_469_231_731_687_303_715_884_105_728)),
        (684_248_540_011_481_405_509_726_393, 9_030, 2, Ok(1_441_610_576_082_404_625_031_329_447)),
        (164_764_009_702_429_133_099_198_142_014_396_467_669, 6_068, 3, OVERFLOW),
        (80_083_123_000_000, 0, 2, Ok(80_083_123_000_000)),
        (982_171_217_273_740_301_146_827_377, 89_843, 365, Ok(7_027_033_049_661_380_566_754_442_554_181)),
        (130, 9_679, 7, Ok(316)),
        (1, 5_388, 1, Ok(1)),
        (201_818_276_971_647_190_818_700_477, 2_332, 2, Ok(251_626_131_655_099_963_399_228_519)),
        (605_340_237_000_000_000_000, 1_825, 3, Ok(722_671_645_579_861_012_152)),
        (340_282_366_920_938_463_463_374_607_431_768_211_455, 2_969, 0, Ok(340_282_366_920_938_463_463_374_607_431_768_211_455)),
        (1_000_000_000_000_000_000_000_000_000, 7_245, 3, Ok(1_913_551_573_375_000_000_000_000_000)),
        (213_759_839_000_000_000, 2_785, 1, Ok(273_291_954_161_500_000)),
        (202_622_275_000, 36_889, 12, Ok(5_053_847_964_407)),
        (3_418_206_100_000, 4_071, 365, Ok(5_134_533_653_184)),
        (230, 0, 0, Ok(230)),
        (608_505_279_136_185_912_617_011_618, 2_255, 7, Ok(759_719_734_559_691_308_579_995_771)),
        (1, 54_436, 52, Ok(1)),
        (5_749_874_620_000_000_000_000, 19_413, 52, Ok(38_672_100_911_035_130_976_221)),
        (581_415_567_108_504_582_038_624_926, 2_310_502_960, 1, Ok(134_336_820_294_994_956_301_962_611_210_204)),
        (86_649_198_400_000_000, 5_463, 0, Ok(86_649_198_400_000_000)),
        (617_705_587, 6_836, 3, Ok(1_143_497_337)),
        (731_897_463_979_156_104_780_731_571, 94_716, 2, Ok(24_078_988_626_747_689_279_439_212_081)),
        (47_569_022_916_327_389_403_764_780_067_642_425_316, 9_205, 3, OVERFLOW),
        (612, 2_998_877_028, 12, OVERFLOW),
        (11_150_386_400, 1_690, 7, Ok(13_176_913_649)),
        (524_921_730_524_599_603_577_553_289, 2_347, 12, Ok(662_276_730_565_432_730_848_837_077)),
        (305_174_248_000_000_000, 4_058, 52, Ok(457_193_953_987_929_721)),
        (95_930_891_300_000_000_000_000_000, 8_198, 52, Ok(216_379_312_808_908_436_188_295_216)),
        (84_022_994_000_000_000_000_000, 4_863, 3, Ok(131_864_731_951_421_586_634_000)),
        (365_319_023_000_000_000_000_000_000, 1_611, 1, Ok(424_171_917_605_300_000_000_000_000)),
        (534_118_336_000_000, 287, 52, Ok(549_665_273_995_271)),
        (244_429_397_022_361_946_280_530_335_318_457_589_380, 2_827, 52, OVERFLOW),
        (597_097_963_393_526_159_867_806_975, 3_513_458_988, 3, OVERFLOW),
        (99_966_335_900_000_000_000, 4_294_967_295, 1, Ok(42_935_314_295_484_339_050_000_000)),
        (98_658_410_365_462_665_207_000_162_928_219_439_466, 4_294_967_295, 0, Ok(98_658_410_365_462_665_207_000_162_928_219_439_466)),
        (419, 1_317, 1, Ok(474)),
        (451_681_429_000_000_000_000_000_000, 1_141, 365, Ok(506_264_519_231_974_712_294_924_982)),
        (495_757_545_824_079_863_049_288_315, 27_471, 0, Ok(495_757_545_824_079_863_049_288_315)),
    ];
    for (principal, rate_bps, periods, expected) in table {
        assert_eq!(compound(principal, rate_bps, periods), expected);
    }
}

/// What a request is answered with: the shares, the blended rate and the yield, or an error.
type Outcome = Result<(u64, u64, u32, u128), OptimizerError>;

const INVALID: Outcome = Err(OptimizerError::InvalidInput);
const MATH_OVERFLOW: Outcome = Err(OptimizerError::Math(MathError::Overflow));
const MATH_INVALID: Outcome = Err(OptimizerError::Math(MathError::InvalidInput));

/// Recommendations worked out in arbitrary-precision arithmetic for a spread of requests.
#[test]
fn test_optimize_table() {
    let table: [([u128; 8], Outcome); 64] = [
        ([1_000_000_000_000_000_000_000_000_000, 4_836, 5_343, 2_714, 724, 10_000, 452, 34], Ok((0, 100, 6_485, 901_024_480_920_030_809_594_756_436))),
        ([1, 698, 8_076, 211, 10_000, 5_393, 8_520, 249], Ok((50, 50, 0, 0))),
        ([7_735_538_310_000_000, 15_686, 31_749, 10_000, 8_480, 2_520, 4_294_967_295, 84], MATH_INVALID),
        ([673_969_472_370_293_438_664_138_422, 12_738, 4_237, 4_498, 2_804, 9_170, 4_294_967_295, 52], MATH_INVALID),
        ([255_120_791_512_219_141_344_010_832_057_463_653_917, 8_759, 2_100, 10_000, 8_776, 7_793, 7_875, 323], MATH_OVERFLOW),
        ([77_601_358_693_016_960_951_031_360_790_783_481_833, 0, 2_934, 5_684, 1_895, 6_876, 7_965, 1], MATH_OVERFLOW),
        ([40, 2_475, 5_186, 1_871, 7_347, 1_922, 7_189, 33], Ok((50, 50, 0, 0))),
        ([10_580_937_897_158_087_536_460_344_544_047_339_483, 46_087, 620, 6_542, 3_015, 4_239, 4_123, 206], MATH_OVERFLOW),
        ([640_514_158, 8_144, 3_785, 1_371, 7_063, 6_477, 2_769, 1_000], Ok((79, 21, 8_852, 1_009_598_220))),
        ([185_507_299_419_787_729_219_048_968, 7_694, 76_941, 2_216, 4_496, 4_294_967_295, 0, 1_000], MATH_INVALID),
        ([958_238_500_174_996_281_499_375_063, 2_791, 1, 6_518, 3_698, 3_327, 9_630, 0], INVALID),
        ([545_431_952_363_075_282_179_552_055, 1_207_583_316, 4_294_967_295, 0, 6_147, 2_302, 9_363, 46], MATH_OVERFLOW),
        ([340_282_366_920_938_463_463_374_607_431_768_211_455, 4_294_967_295, 3_600_746_511, 8_437, 10_001, 0, 9_332, 290], INVALID),
        ([2_513_262_830_000_000, 3_674, 92_201, 4_723, 9_757, 1_922, 419, 319], MATH_OVERFLOW),
        ([89_418_635_200_000_000_000, 9_383, 0, 0, 1_439, 8_341, 7_672, 204], Ok((100, 0, 15_501, 329_455_102_170_844_597_693))),
        ([395_344_396_837_001_002_255_249_194, 608, 6_745, 1_404, 9_463, 8_940, 10_001, 101], MATH_INVALID),
        ([697_611_876_000_000_000_000, 1_085, 1, 4_249, 314, 3_483, 4_610, 243], Ok((100, 0, 658, 47_440_105_235_548_029_900))),
        ([702_556_306_381_752_979_274_776_569, 7_344, 0, 1_426, 10_000, 754, 3_108, 314], Ok((100, 0, 9_280, 1_072_090_914_248_723_722_922_712_181))),
        ([381_017_323_690_501_383_415_759_284, 2_888, 8_167, 2_908, 10_000, 6_025, 8_897, 43], Ok((100, 0, 2_365, 101_345_628_253_712_711_965_311_220))),
        ([103_418_196_658_874_040_870_572_731_286_490_949_065, 9_684, 8_285, 7_908, 9_022, 1_957, 2_296, 268], MATH_OVERFLOW),
        ([962, 4_751, 24_876, 4_401, 4_215, 6_414, 10_001, 0], INVALID),
        ([5_856_463_570_000, 55_713, 7_574, 6_908, 0, 4_231, 8_725, 52], Ok((99, 1, 605_766, 2_121_103_826_280_723_441_662_562_877_607))),
        ([5_573_073_611_149_067_980_875_239_248_614_432_455, 2_271_870_251, 4_153, 4_245, 542, 4_223, 4_052, 1], MATH_OVERFLOW),
        ([2_246_583_060_000_000_000_000_000, 4_113_873_597, 1_979_301_854, 2_508, 6_827, 1_215, 653, 119], MATH_OVERFLOW),
        ([122_148_312_000_000_000, 776, 852, 0, 9_871, 4_675, 3_050, 91], Ok((98, 2, 790, 10_045_795_828_457_368))),
        ([837, 5_479, 9_988, 1_911, 4_615, 1_916, 9_273, 12], Ok((87, 13, 6_046, 664))),
        ([3_692_454_060_000_000_000_000_000, 4_272, 10_100, 7_006, 6_296, 2_285, 3_461, 138], Ok((22, 78, 5_364, 2_729_214_033_529_971_286_174_052))),
        ([232_545_795_208_341_610_320_038_039_508_088_367_119, 9_250, 9_967, 6_714, 1_271, 5_758, 0, 54], MATH_OVERFLOW),
        ([976, 800, 6_105, 7_605, 0, 1_392, 3_774, 106], Ok((0, 100, 7_581, 1_024))),
        ([61_565_220_000_000_000, 6_144, 1, 10_001, 237, 7_019, 1_512, 1_000], INVALID),
        ([3_338_655_730_000_000_000_000, 1_343, 4_097, 7_223, 863, 0, 7_295, 240], Ok((24, 76, 3_607, 1_521_291_713_574_585_349_632))),
        ([498_590_494_096_258_140_251_248_830, 878, 6_478, 2_774, 1_918, 5_161, 9_708, 57], Ok((60, 40, 3_320, 233_324_406_197_302_616_873_553_090))),
        ([842_715_379_000_000_000, 3_541, 7_928, 9_593, 4_013, 5_394, 7_558, 265], Ok((4, 96, 6_943, 856_317_422_233_684_770))),
        ([32_978_037_000_000_000_000, 1_461_369_079, 4_052, 0, 963, 7_126, 0, 0], INVALID),
        ([491_662_509_375_370_586_459_517_692, 9_715, 7_405, 8_839, 2_109, 5_625, 533, 2], Ok((8, 92, 6_483, 373_171_105_991_318_440_503_541_888))),
        ([80_885_992_800, 3_471, 803_772_529, 10_000, 10_001, 8_879, 6_121, 0], INVALID),
        ([1, 28_551, 18_297, 1_993, 5_867, 913, 1_551, 188], Ok((50, 50, 0, 0))),
        ([4_205_739_490_000_000_000_000, 1_122, 7_520, 2_177, 2_233, 205, 189, 36], Ok((9, 91, 7_892, 5_146_246_081_456_497_755_627))),
        ([417_018_232_194_236_100_725_923_922, 8_618, 35_700, 5_773, 3_976, 5_229, 3_031, 0], INVALID),
        ([786_264_503_538_466_660_352_418_277, 1_081_117_643, 2_530, 8_021, 4_294_967_295, 183, 10_000, 287], INVALID),
        ([129, 30_041, 10_000, 10_000, 1_076, 6_669, 8_158, 320], Ok((50, 50, 0, 0))),
        ([566, 4_472, 111, 7_196, 7_175, 4_287, 10_001, 207], MATH_INVALID),
        ([414_166_242_756_734_146_532_707_939, 2_467, 0, 6_195, 2_935, 7_256, 6_533, 330], Ok((100, 0, 1_064, 46_489_174_951_515_930_323_731_683))),
        ([340_282_366_920_938_463_463_374_607_431_768_211_455, 1_861_818_849, 97_382, 4_294_967_295, 5_028, 9_062, 6_810, 2], INVALID),
        ([680, 2_006, 4_178, 4_548, 10_000, 10_000, 1_697, 304], Ok((50, 50, 0, 0))),
        ([509, 60_088, 2_733, 5_978, 5_540, 3_344, 7_096, 52], Ok((99, 1, 1_160_586, 223_818_926_325_923_358_066_695_326_870))),
        ([585_101_900_000_000_000, 6_960, 9_511, 2_904, 648, 10_001, 8_402, 155], MATH_INVALID),
        ([71_002_131_800_000_000_000_000_000, 7_401, 4_729, 5_217, 10_000, 6_525, 9_384, 12], Ok((100, 0, 5_025, 45_158_454_245_085_594_125_798_476))),
        ([4_610_054_070_000_000_000_000, 6_285, 5_029, 6_729, 8_932, 8_246, 0, 194], Ok((41, 59, 1_581, 820_034_128_719_052_256_445))),
        ([420_302_931_367_464_573_719_574_278, 6_527, 0, 2_545, 5_139, 1_101, 2_421, 357], Ok((100, 0, 6_855, 413_351_045_251_114_007_556_341_853))),
        ([563, 5_649, 7_454, 121, 4_390, 6_353, 6_045, 189], Ok((48, 52, 4_741, 0))),
        ([265, 10_000, 5_813, 613, 4_969, 8_802, 8_410, 82], Ok((78, 22, 11_151, 491))),
        ([1, 3_542, 1_829, 4_371, 9_836, 4_968, 3_891, 216], Ok((50, 50, 0, 0))),
        ([559_947_209_579_726_493_456_106_620, 1, 10_000, 8_378, 4_168, 7_001, 5_844, 211], Ok((0, 100, 9_983, 955_988_739_112_291_790_936_061_390))),
        ([739, 6_240, 1_039, 2_456, 3_059, 4_821, 10_000, 71], Ok((100, 0, 5_994, 552))),
        ([516, 7_263, 3_823, 3_668, 3_542, 2_756, 9_380, 57], Ok((96, 4, 6_035, 380))),
        ([472_763_914_000_000, 10_000, 2_281, 422, 6_451, 9_384, 2_530, 1_000], Ok((59, 41, 10_074, 1_181_840_180_384_958))),
        ([737, 7_031, 6_373, 253, 5_094, 389, 738, 80], Ok((70, 30, 7_555, 770))),
        ([67_176_203_400_000_000_000_000, 1_169, 6_188, 4_160, 1_415, 1_652, 9_671, 46], Ok((71, 29, 2_627, 24_242_370_168_355_115_857_118))),
        ([1, 950, 674, 7_473, 3_292, 10_000, 7_638, 80], Ok((50, 50, 0, 0))),
        ([200_682_596_176_156_267_734_506_252, 1, 1, 5_482, 1_080, 1_535, 1_634, 101], Ok((50, 50, 0, 0))),
        ([431_817_069, 6_770, 9_702, 3_452, 9_004, 10_001, 6_395, 357], MATH_INVALID),
        ([241_571_588_210_138_457_223_078_674, 4_383, 392, 10_000, 4_303, 9_692, 6_358, 1_000], Ok((0, 100, 227, 5_546_324_728_432_988_611_677_086))),
        ([98_185_910_900_000_000_000, 3_824, 8_035, 5_497, 2_942, 1_571, 0, 12], Ok((17, 83, 7_242, 104_184_927_162_887_090_044))),
    ];
    for (fields, expected) in table {
        let request = OptimizerInput {
            principal: fields[0],
            hydradx_apy_bps: fields[1] as u32,
            interlay_apy_bps: fields[2] as u32,
            hydradx_fee_bps: fields[3] as u32,
            interlay_fee_bps: fields[4] as u32,
            hydradx_risk_score: fields[5] as u32,
            interlay_risk_score: fields[6] as u32,
            projection_periods: fields[7] as u32,
        };
        let outcome = optimize(&request).map(|r| {
            assert_eq!(r.use_hydradx, r.hydradx_allocation_pct > 0);
            assert_eq!(r.use_interlay, r.interlay_allocation_pct > 0);
            (
                r.hydradx_allocation_pct,
                r.interlay_allocation_pct,
                r.projected_net_apy_bps,
                r.expected_yield_dot,
            )
        });
        assert_eq!(outcome, expected, "request {fields:?}");
    }
}
