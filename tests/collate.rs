use geo::prelude::Translate;
use geo_collate::{Collate, CollateError, Coord, Polygon};
use geo_types::LineString;

fn ring(points: &[(i64, i64)]) -> Vec<Coord> {
    points.iter().map(|&(x, y)| Coord { x, y }).collect()
}

/// A ring given with floating-point coordinates that are whole numbers.
fn ring_f(points: &[(f64, f64)]) -> Vec<Coord> {
    points
        .iter()
        .map(|&(x, y)| {
            assert!(x.fract() == 0.0 && y.fract() == 0.0);
            Coord { x: x as i64, y: y as i64 }
        })
        .collect()
}

fn from_geo_f(ls: &LineString<f64>) -> Vec<Coord> {
    ls.0.iter()
        .map(|c| {
            assert!(c.x.fract() == 0.0 && c.y.fract() == 0.0);
            Coord { x: c.x as i64, y: c.y as i64 }
        })
        .collect()
}

fn from_geo(ls: &LineString<i64>) -> Vec<Coord> {
    ls.0.iter().map(|c| Coord { x: c.x, y: c.y }).collect()
}

fn geo_f(points: &[(f64, f64)]) -> LineString<f64> {
    points.to_vec().into()
}

fn geo_i(points: &[(i64, i64)]) -> LineString<i64> {
    points.to_vec().into()
}

fn first(polys: &[Polygon]) -> &Polygon {
    polys.first().unwrap()
}

#[test]
fn one_square() {
    let uncollated = vec![ring_f(&[(0.0, 0.0), (0.0, 1.0), (1.0, 1.0), (1.0, 0.0), (0.0, 0.0)])];

    let collated = uncollated.collate().unwrap();
    assert_eq!(collated.len(), 1);
    assert_eq!(first(&collated).exterior.len(), 5);
    assert_eq!(first(&collated).interiors.len(), 0);
}

#[test]
fn square_hole() {
    let exterior = ring_f(&[(0.0, 0.0), (0.0, 3.0), (3.0, 3.0), (3.0, 0.0), (0.0, 0.0)]);
    let hole = ring_f(&[(1.0, 1.0), (2.0, 1.0), (2.0, 2.0), (1.0, 2.0), (1.0, 1.0)]);
    let uncollated = vec![exterior, hole];
    let collated = uncollated.collate().unwrap();

    assert_eq!(collated.len(), 1);
    assert_eq!(first(&collated).exterior.len(), 5);
    assert_eq!(first(&collated).interiors.len(), 1);
    assert_eq!(first(&collated).interiors.first().unwrap().len(), 5);
}

#[test]
fn square_with_diamond_hole() {
    let exterior = ring_f(&[(0.0, 0.0), (0.0, 4.0), (4.0, 4.0), (4.0, 0.0), (0.0, 0.0)]);
    let hole = ring_f(&[(2.0, 1.0), (3.0, 2.0), (2.0, 3.0), (1.0, 2.0), (2.0, 1.0)]);
    let uncollated = vec![exterior, hole];
    let collated = uncollated.collate().unwrap();

    assert_eq!(collated.len(), 1);
    assert_eq!(first(&collated).exterior.len(), 5);
    assert_eq!(first(&collated).interiors.len(), 1);
    assert_eq!(first(&collated).interiors.first().unwrap().len(), 5);
}

#[test]
fn square_two_holes() {
    let exterior = ring_f(&[(0.0, 0.0), (0.0, 6.0), (6.0, 6.0), (6.0, 0.0), (0.0, 0.0)]);
    let hole1 = ring_f(&[(1.0, 1.0), (2.0, 1.0), (2.0, 2.0), (1.0, 2.0), (1.0, 1.0)]);
    let hole2 = ring_f(&[(3.0, 3.0), (4.0, 3.0), (4.0, 4.0), (3.0, 4.0), (3.0, 3.0)]);
    let uncollated = vec![exterior, hole1, hole2];
    let collated = uncollated.collate().unwrap();
    let collated2 = uncollated.collate_into().unwrap();

    assert_eq!(collated.len(), 1);
    assert_eq!(first(&collated).exterior.len(), 5);
    assert_eq!(first(&collated).interiors.len(), 2);
    assert_eq!(first(&collated).interiors[0].len(), 5);
    assert_eq!(first(&collated).interiors[1].len(), 5);

    assert_eq!(collated2.len(), 1);
    assert_eq!(first(&collated2).exterior.len(), 5);
    assert_eq!(first(&collated2).interiors.len(), 2);
    assert_eq!(first(&collated2).interiors[0].len(), 5);
    assert_eq!(first(&collated2).interiors[1].len(), 5);
}

#[test]
fn square_two_holes_in_line() {
    let exterior = ring_f(&[(0.0, 0.0), (0.0, 6.0), (6.0, 6.0), (6.0, 0.0), (0.0, 0.0)]);
    let hole1 = ring_f(&[(1.0, 1.0), (2.0, 1.0), (2.0, 2.0), (1.0, 2.0), (1.0, 1.0)]);
    let hole2 = ring_f(&[(3.0, 1.0), (4.0, 1.0), (4.0, 2.0), (3.0, 2.0), (3.0, 1.0)]);
    let uncollated = vec![exterior, hole1, hole2];
    let collated = uncollated.collate().unwrap();

    assert_eq!(collated.len(), 1);
    assert_eq!(first(&collated).exterior.len(), 5);
    assert_eq!(first(&collated).interiors.len(), 2);
    assert_eq!(first(&collated).interiors[0].len(), 5);
    assert_eq!(first(&collated).interiors[1].len(), 5);
}

#[test]
fn square_two_holes_overlapping_range() {
    let exterior = ring_f(&[(0.0, 0.0), (0.0, 6.0), (6.0, 6.0), (6.0, 0.0), (0.0, 0.0)]);
    let hole1 = ring_f(&[(1.0, 1.0), (2.0, 1.0), (2.0, 3.0), (1.0, 3.0), (1.0, 1.0)]);
    let hole2 = ring_f(&[(3.0, 2.0), (4.0, 2.0), (4.0, 4.0), (3.0, 4.0), (3.0, 2.0)]);
    let uncollated = vec![exterior, hole1, hole2];
    let collated = uncollated.collate().unwrap();

    assert_eq!(collated.len(), 1);
    assert_eq!(first(&collated).exterior.len(), 5);
    assert_eq!(first(&collated).interiors.len(), 2);
    assert_eq!(first(&collated).interiors[0].len(), 5);
    assert_eq!(first(&collated).interiors[1].len(), 5);
}

#[test]
fn two_polys_square_hole() {
    let exterior1 = geo_f(&[(0.0, 0.0), (0.0, 3.0), (3.0, 3.0), (3.0, 0.0), (0.0, 0.0)]);
    let hole1 = geo_f(&[(1.0, 1.0), (2.0, 1.0), (2.0, 2.0), (1.0, 2.0), (1.0, 1.0)]);
    let exterior2 = exterior1.translate(4.0, 0.0);
    let hole2 = hole1.translate(4.0, 0.0);

    let uncollated: Vec<Vec<Coord>> = vec![exterior1, hole1, exterior2, hole2]
        .iter()
        .map(from_geo_f)
        .collect();
    let collated = uncollated.collate().unwrap();

    assert_eq!(collated.len(), 2);
    assert_eq!(collated[0].exterior.len(), 5);
    assert_eq!(collated[0].interiors.len(), 1);
    assert_eq!(collated[0].interiors.first().unwrap().len(), 5);

    assert_eq!(collated[1].exterior.len(), 5);
    assert_eq!(collated[1].interiors.len(), 1);
    assert_eq!(collated[1].interiors.first().unwrap().len(), 5);
}

#[test]
fn hole_in_line_with_sweep() {
    let exterior = ring_f(&[(0.0, 0.0), (0.0, 4.0), (3.0, 4.0), (3.0, 0.0), (0.0, 0.0)]);
    let hole = ring_f(&[(1.0, 1.0), (2.0, 1.0), (2.0, 2.0), (1.0, 2.0), (1.0, 1.0)]);
    let uncollated = vec![exterior, hole];
    let collated = uncollated.collate().unwrap();

    assert_eq!(collated.len(), 1);
    assert_eq!(first(&collated).exterior.len(), 5);
    assert_eq!(first(&collated).interiors.len(), 1);
    assert_eq!(first(&collated).interiors.first().unwrap().len(), 5);
}

/// The library's coordinates are integers; these rings hold halves, so every
/// coordinate is doubled, which keeps the nesting.
fn ring_doubled(points: &[(f64, f64)]) -> Vec<Coord> {
    points
        .iter()
        .map(|&(x, y)| Coord { x: (x * 2.0) as i64, y: (y * 2.0) as i64 })
        .collect()
}

#[test]
fn poly_in_hole() {
    let exterior1 = ring_doubled(&[(0.0, 0.0), (0.0, 6.0), (6.0, 6.0), (6.0, 0.0), (0.0, 0.0)]);
    let hole1 = ring_doubled(&[(1.0, 1.0), (5.0, 1.0), (5.0, 5.0), (1.0, 5.0), (1.0, 1.0)]);
    let exterior2 = ring_doubled(&[(2.0, 2.0), (2.0, 4.0), (4.0, 4.0), (4.0, 2.0), (2.0, 2.0)]);
    let hole2 = ring_doubled(&[(2.5, 2.5), (3.5, 2.5), (3.5, 3.5), (2.5, 3.5), (2.5, 2.5)]);

    let uncollated = vec![exterior1, hole1, exterior2, hole2];
    let collated = uncollated.collate().unwrap();

    assert_eq!(collated.len(), 2);
    assert_eq!(collated[0].exterior.len(), 5);
    assert_eq!(collated[0].interiors.len(), 1);
    assert_eq!(collated[0].interiors.first().unwrap().len(), 5);

    assert_eq!(collated[1].exterior.len(), 5);
    assert_eq!(collated[1].interiors.len(), 1);
    assert_eq!(collated[1].interiors.first().unwrap().len(), 5);
}

#[test]
fn one_square_int() {
    let uncollated = vec![ring(&[(0, 0), (0, 10), (10, 10), (10, 0), (0, 0)])];

    let collated = uncollated.collate().unwrap();
    assert_eq!(collated.len(), 1);
    assert_eq!(first(&collated).exterior.len(), 5);
    assert_eq!(first(&collated).interiors.len(), 0);
}

#[test]
fn one_unit_square_int() {
    let uncollated = vec![ring(&[(0, 0), (0, 1), (1, 1), (1, 0), (0, 0)])];

    let collated = uncollated.collate().unwrap();
    assert_eq!(collated.len(), 1);
    assert_eq!(first(&collated).exterior.len(), 5);
    assert_eq!(first(&collated).interiors.len(), 0);
}

#[test]
fn square_hole_int() {
    let exterior = ring(&[(0, 0), (0, 30), (30, 30), (30, 0), (0, 0)]);
    let hole = ring(&[(10, 10), (20, 10), (20, 20), (10, 20), (10, 10)]);
    let uncollated = vec![exterior, hole];
    let collated = uncollated.collate().unwrap();

    assert_eq!(collated.len(), 1);
    assert_eq!(first(&collated).exterior.len(), 5);
    assert_eq!(first(&collated).interiors.len(), 1);
    assert_eq!(first(&collated).interiors.first().unwrap().len(), 5);
}

#[test]
fn square_with_diamond_hole_int() {
    let exterior = ring(&[(0, 0), (0, 40), (40, 40), (40, 0), (0, 0)]);
    let hole = ring(&[(20, 10), (30, 20), (20, 30), (10, 20), (20, 10)]);
    let uncollated = vec![exterior, hole];
    let collated = uncollated.collate().unwrap();

    assert_eq!(collated.len(), 1);
    assert_eq!(first(&collated).exterior.len(), 5);
    assert_eq!(first(&collated).interiors.len(), 1);
    assert_eq!(first(&collated).interiors.first().unwrap().len(), 5);
}

#[test]
fn square_two_holes_int() {
    let exterior = ring(&[(0, 0), (0, 60), (60, 60), (60, 0), (0, 0)]);
    let hole1 = ring(&[(10, 10), (20, 10), (20, 20), (10, 20), (10, 10)]);
    let hole2 = ring(&[(30, 30), (40, 30), (40, 40), (30, 40), (30, 30)]);
    let uncollated = vec![exterior, hole1, hole2];
    let collated = uncollated.collate().unwrap();

    assert_eq!(collated.len(), 1);
    assert_eq!(first(&collated).exterior.len(), 5);
    assert_eq!(first(&collated).interiors.len(), 2);
    assert_eq!(first(&collated).interiors[0].len(), 5);
    assert_eq!(first(&collated).interiors[1].len(), 5);
}

#[test]
fn square_two_holes_in_line_int() {
    let exterior = ring(&[(0, 0), (0, 60), (60, 60), (60, 0), (0, 0)]);
    let hole1 = ring(&[(10, 10), (20, 10), (20, 20), (10, 20), (10, 10)]);
    let hole2 = ring(&[(30, 10), (40, 10), (40, 20), (30, 20), (30, 10)]);
    let uncollated = vec![exterior, hole1, hole2];
    let collated = uncollated.collate().unwrap();

    assert_eq!(collated.len(), 1);
    assert_eq!(first(&collated).exterior.len(), 5);
    assert_eq!(first(&collated).interiors.len(), 2);
    assert_eq!(first(&collated).interiors[0].len(), 5);
    assert_eq!(first(&collated).interiors[1].len(), 5);
}

#[test]
fn two_polys_square_hole_int() {
    let exterior1 = geo_i(&[(0, 0), (0, 30), (30, 30), (30, 0), (0, 0)]);
    let hole1 = geo_i(&[(10, 10), (20, 10), (20, 20), (10, 20), (10, 10)]);
    let exterior2 = exterior1.translate(40, 0);
    let hole2 = hole1.translate(40, 0);

    let uncollated: Vec<Vec<Coord>> = vec![exterior1, hole1, exterior2, hole2]
        .iter()
        .map(from_geo)
        .collect();
    let collated = uncollated.collate().unwrap();

    assert_eq!(collated.len(), 2);
    assert_eq!(collated[0].exterior.len(), 5);
    assert_eq!(collated[0].interiors.len(), 1);
    assert_eq!(collated[0].interiors.first().unwrap().len(), 5);

    assert_eq!(collated[1].exterior.len(), 5);
    assert_eq!(collated[1].interiors.len(), 1);
    assert_eq!(collated[1].interiors.first().unwrap().len(), 5);
}

#[test]
fn hole_in_line_with_sweep_int() {
    let exterior = ring(&[(0, 0), (0, 40), (30, 40), (30, 0), (0, 0)]);
    let hole = ring(&[(10, 10), (20, 10), (20, 20), (10, 20), (10, 10)]);
    let uncollated = vec![exterior, hole];
    let collated = uncollated.collate().unwrap();

    assert_eq!(collated.len(), 1);
    assert_eq!(first(&collated).exterior.len(), 5);
    assert_eq!(first(&collated).interiors.len(), 1);
    assert_eq!(first(&collated).interiors.first().unwrap().len(), 5);
}

#[test]
fn poly_in_hole_int() {
    let exterior1 = ring(&[(0, 0), (0, 60), (60, 60), (60, 0), (0, 0)]);
    let hole1 = ring(&[(10, 10), (50, 10), (50, 50), (10, 50), (10, 10)]);
    let exterior2 = ring(&[(20, 20), (20, 40), (40, 40), (40, 20), (20, 20)]);
    let hole2 = ring(&[(25, 25), (35, 25), (35, 35), (25, 35), (25, 25)]);

    let uncollated = vec![exterior1, hole1, exterior2, hole2];
    let collated = uncollated.collate().unwrap();

    assert_eq!(collated.len(), 2);
    assert_eq!(collated[0].exterior.len(), 5);
    assert_eq!(collated[0].interiors.len(), 1);
    assert_eq!(collated[0].interiors.first().unwrap().len(), 5);

    assert_eq!(collated[1].exterior.len(), 5);
    assert_eq!(collated[1].interiors.len(), 1);
    assert_eq!(collated[1].interiors.first().unwrap().len(), 5);
}

/// A concave ring from a sliced model. The library's coordinates are
/// integers: these are in units of a nanometre, rounded.
#[test]
fn octopus_layer() {
    let points: Vec<(f64, f64)> = vec![
        (-0.06148776779719839, 21.08726538461537),
        (0.010888609340072575, 20.83853598277212),
        (0.01352752935146273, 20.83109032889585),
        (0.7007118528744496, 20.867004577589256),
        (1.7651915109257719, 20.774226781933663),
        (3.073542794187464, 20.60272918136909),
        (3.8929185744680854, 20.352614361702127),
        (4.49005372582205, 20.17874095744681),
        (5.2982631296572285, 19.7519105296343),
        (6.200597303679927, 19.369241803278687),
        (6.812109696610124, 18.711550355977455),
        (7.612515777891643, 18.042605324829427),
        (8.193687496580027, 17.00482975376197),
        (8.913517761348091, 15.498490355677156),
        (9.172079470141991, 14.402422961844634),
        (9.930007194544956, 12.595277065605272),
        (10.138493225240707, 11.589890444044403),
        (10.472352601178299, 10.554994374437443),
        (12.340197833783378, 9.52010015926138),
        (12.969037033492823, 8.966239602870813),
        (14.187640299959465, 8.939444052806131),
        (15.286206615322254, 8.762651024836938),
        (16.55244514056225, 8.853177662285507),
        (17.236801365461847, 8.895279670317635),
        (18.7936282626539, 9.148506849023754),
        (19.012936060191517, 9.224552410396717),
        (19.25887409028728, 9.39700782862828),
        (20.426542608695648, 10.175913671936756),
        (21.00605789029536, 10.538736660529343),
        (21.114733161520483, 10.608078822733424),
        (21.989499144542773, 12.292867050147493),
        (22.186401318848866, 12.702478860936408),
        (22.15583181126332, 13.518502511415525),
        (22.03867094887179, 16.13062137733142),
        (21.77238904, 17.063638),
        (21.188697432744043, 19.157146848578016),
        (20.929558710717163, 20.23260777598711),
        (20.49831397324941, 22.25549319433517),
        (20.477551548117155, 23.447674351464435),
        (20.455800901639346, 25.38585393442623),
        (20.82074742857143, 26.474966408163265),
        (21.032764362730294, 27.166926910299004),
        (21.606130629139074, 28.170946688741722),
        (21.97977507346189, 28.83267777777778),
        (23.076982200230148, 29.828628396624474),
        (23.795319546247818, 30.472989965095987),
        (25.01754561018437, 31.07793937664618),
        (25.8657391598916, 31.492427235772357),
        (26.925092752962627, 31.5383112579763),
        (27.687997134935305, 31.581126340110906),
        (28.657738030888034, 31.405857335907335),
        (29.888076387536515, 31.19783169425511),
        (30.77959560669456, 30.667062343096234),
        (31.824922842105263, 30.022619157894738),
        (32.384647458563535, 29.308962707182317),
        (32.930236932070144, 28.62972915742794),
        (33.40243915775401, 27.417105882352942),
        (33.78587905982906, 26.456192735042737),
        (33.804014294330514, 25.554209589867313),
        (33.802290403903164, 24.424874048913043),
        (33.55289204951857, 23.805794841815683),
        (33.13353828571428, 22.869603714285713),
        (31.844447168271582, 21.56045053859964),
        (31.589993333333332, 21.265352500000002),
        (29.89847020202021, 20.314774242424246),
        (29.776206603773584, 20.24805471698113),
        (29.683012025316447, 20.240690506329113),
        (27.497459345794393, 20.127992056074767),
        (26.892066022099442, 20.369673756906078),
        (25.738433644859814, 20.8454285046729),
        (25.502154292671616, 21.09019107142857),
        (25.154493258426967, 21.451698876404492),
        (25.56378841724942, 21.153132307692307),
        (25.827658018867925, 21.004933490566035),
        (26.50416591836735, 20.757312857142853),
        (27.576205458813487, 20.389938262910796),
        (28.081310122574056, 20.45590767790262),
        (29.60730164319249, 20.763275352112675),
        (29.648015175718854, 20.79281517571885),
        (29.730729591836745, 20.85393265306123),
        (30.96186148325359, 21.70242033492823),
        (31.18817417218543, 21.822496854304635),
        (31.365036702127657, 22.035047872340424),
        (32.39781927272727, 23.247991276595744),
        (32.50551139664804, 23.599085754189943),
        (32.822329282814614, 24.42639303112314),
        (32.820663370744484, 25.020313511659808),
        (32.77088164301552, 26.185701463414635),
        (32.50398729726715, 26.902169754601225),
        (32.04126911111111, 27.987764555555557),
        (31.647999944506104, 28.46753923418424),
        (31.127455396825397, 29.0939826984127),
        (30.44923255813954, 29.55751353065539),
        (29.682444412264235, 29.995819911504427),
        (28.69701233880266, 30.2022816097561),
        (27.790147198879552, 30.359385294117647),
        (26.961438682745825, 30.306906586270873),
        (26.2434147166362, 30.25297851919561),
        (25.37167597876576, 29.835370437956204),
        (24.604307272727272, 29.44911819787986),
        (23.937540303030303, 28.77823205128205),
        (23.344010996369814, 28.19831873406967),
        (22.910568189581554, 27.39731293766012),
        (22.587128661087867, 26.794778870292888),
        (22.38626590985485, 25.92412142857143),
        (22.229949829545454, 25.29813125),
        (22.331526400274786, 23.55394084802687),
        (22.396756209856232, 22.45136526357199),
        (22.718026916167663, 21.438030538922153),
        (23.399811080025117, 19.482226362240983),
        (23.740263903080393, 18.613442011019284),
        (24.60390506437768, 16.474625250357654),
        (24.92816869801316, 12.659147962052003),
        (24.173935210402608, 9.956412491091061),
        (24.13456312396694, 9.8310492446281),
        (23.578766363636362, 9.208967285714282),
        (21.760740188045666, 7.283062592832285),
        (21.313857405824532, 6.828671995115697),
        (19.744859045792914, 5.8500657829912015),
        (18.805989032258065, 5.2491379914279275),
        (17.470490517023958, 4.467765943979518),
        (16.31292654056326, 3.7327158415300543),
        (14.987631483474251, 3.0072801050241074),
        (13.63669804765565, 2.156483744811683),
        (13.273114880860875, 1.9496852820906998),
        (12.252034990964944, 1.3257203411637153),
        (12.061943194795807, 1.0096926760291751),
        (11.434426101694914, 0.548328214329738),
        (12.049012598225602, 0.09493810424780114),
        (12.238187249683143, -0.10339011314667595),
        (14.16732037735849, -0.4584178799313895),
        (14.687316603773585, -0.6179386974271013),
        (17.763016335282654, -0.5705853020142951),
        (18.43331769980507, -0.5793399651899109),
        (20.956411442406058, -0.21543464658664663),
        (21.075134246061516, -0.19698205843960997),
        (23.040759272727264, 0.4511722563636331),
        (23.19587550387597, 0.49963446779422105),
        (23.205687111111114, 0.5039109645656565),
        (24.810370080744754, 1.2419652641873276),
        (24.936022249431144, 1.341469282479142),
        (26.290122921348313, 2.5278789662921346),
        (27.724430976658475, 4.114721394963144),
        (27.945226017615603, 4.351800262661214),
        (29.50286204625763, 6.00793946321876),
        (29.70316395348837, 6.217383340380549),
        (31.6052374251497, 7.760636314643439),
        (31.772148468786806, 7.8958668189313626),
        (33.4417129827832, 8.82275788814563),
        (33.53797617901101, 8.877894686460808),
        (35.9828087890053, 9.69223429582066),
        (36.01735785202864, 9.704519049251465),
        (36.93926000000002, 9.937350787878794),
        (37.54194852459016, 10.085045628415301),
        (37.559828787878786, 10.084569672131149),
        (40.24268772204806, 10.03719827586207),
        (40.28153394636015, 10.027840495646117),
        (41.77933794676806, 9.681891956100932),
        (43.401696170212766, 8.867055127659574),
        (43.45783201160542, 8.838263605415861),
        (44.73855283442793, 7.794885079847909),
        (44.78137558935361, 7.759170283097131),
        (46.00845375, 5.556670755681818),
        (46.09560285714285, 5.201223428571447),
        (46.409446776859504, 3.8459839559228652),
        (46.40417259720063, 3.774479371695178),
        (46.32473324675325, 2.046916139941691),
        (46.26792260504202, 1.8490084705882346),
        (45.84123174336533, 0.2830372484472051),
        (45.6397089010989, -0.04822107692307773),
        (44.895276033057854, -1.290085685950413),
        (44.452212929292926, -1.7099684040404046),
        (43.63621501284934, -2.4977271519434625),
        (42.71382027164686, -2.8895553005093375),
        (42.021440099673484, -3.146603387523629),
        (40.313682535211264, -3.1216282816901404),
        (39.76690159929008, -3.1409050498915394),
        (38.41420016393443, -2.7361684918032796),
        (37.78954163265306, -2.521901061224489),
        (37.004571937229436, -1.8467063333333287),
        (36.11590434275185, -1.0443628648648646),
        (35.4777408, 0.37502871701818696),
        (35.348282448979596, 0.6730294510204083),
        (35.32911, 0.8354519136363611),
        (35.179274059775835, 1.98016295890411),
        (35.1833274131016, 1.9995644999999997),
        (35.1889990976431, 2.0030520208754203),
        (35.194963643147894, 1.9992811044776118),
        (35.20239685415304, 1.9796570359712236),
        (35.368704966442955, 0.8430525854179354),
        (35.394885088293, 0.6872540276651405),
        (35.99148641975309, -0.5391715387766589),
        (36.22007639657444, -0.9858103509222663),
        (37.053937611940306, -1.5795664613297182),
        (37.97409768115942, -2.1419871304347833),
        (38.2161711969112, -2.1659966486486493),
        (38.47635833333334, -2.1883396666666677),
        (39.5894663670412, -2.3286056779026225),
        (39.869493057851244, -2.395053371900827),
        (40.27501322800194, -2.3360116363636374),
        (41.69292425696075, -2.133550583025831),
        (42.185477159763316, -1.8576483944773186),
        (42.75553809694794, -1.568571339317774),
        (43.35626628803245, -0.9338686737967923),
        (43.734110989528, -0.4944010235847626),
        (44.24983444846293, 0.500327599901363),
        (44.42846730644935, 0.8720306662919768),
        (44.68988003338898, 1.9413655225375614),
        (44.73777311953353, 2.165594565597668),
        (44.79438872670807, 3.3254998260869555),
        (44.79598586445366, 3.43459397749277),
        (44.551636197387516, 4.579184494920174),
        (44.54376824468085, 4.608298744680852),
        (44.088449173553705, 5.486198931129499),
        (43.598063178294574, 6.4572989478505995),
        (42.52226148510668, 7.3128364237025565),
        (42.50638091402014, 7.325229593127244),
        (41.365619259259255, 7.990255451178451),
        (40.21929826197005, 8.30932831301413),
        (40.191910481614286, 8.3105873387471),
        (38.373479641465316, 8.380649535109473),
        (37.51849825174829, 8.199783349650358),
        (37.29047026537997, 8.153300885733085),
        (35.5739868973262, 7.57506523828877),
        (35.518505652173914, 7.556146305335969),
        (33.93036149195302, 6.692874525445847),
        (31.944797801710486, 5.236909567627495),
        (31.78258482352941, 5.113927253796792),
        (30.18008338244514, 3.308276926123303),
        (30.000945714285713, 3.1050520995671),
        (28.37655575757576, 1.1181568614718627),
        (28.197941004838874, 0.9051253861834657),
        (26.238901999127968, -0.9290026762589918),
        (26.156780508474576, -1.005625550154083),
        (24.59227592592591, -2.005733185185194),
        (23.879666279069767, -2.447816217054264),
        (23.84657093023256, -2.4702627286821706),
        (21.40088863298663, -3.538301937592868),
        (21.260826671619615, -3.6118359643387814),
        (19.013587550439116, -4.486142778067885),
        (18.526589765013053, -4.689803705435557),
        (15.75972842105263, -5.470108403508772),
        (14.71079050367855, -5.7870362440705865),
        (14.130166904357669, -5.87134540891084),
        (11.396836252723311, -6.79111423073876),
        (12.836953866760663, -7.314210095267088),
        (13.430737899189285, -7.665385187169545),
        (15.891967692307693, -8.278695832167832),
        (17.614775384615385, -8.69158813986014),
        (20.508739439252338, -10.285825400169923),
        (21.034942242990653, -10.562739719626167),
        (21.33170522514868, -10.839488317757008),
        (22.943262058547067, -12.314627400295421),
        (23.2693244911264, -13.196186254980075),
        (23.87570205288796, -15.025043110647182),
        (23.88745512820513, -15.329726244343894),
        (23.960685734265734, -17.477934475524474),
        (23.6133433965311, -19.34018309210526),
        (23.49620768022841, -19.898904389721626),
        (23.29821013039044, -20.73196482371795),
        (22.744271335379892, -22.771500805832694),
        (22.167913473053893, -24.710688473053892),
        (21.899988487232672, -25.71286526357199),
        (21.785349664147773, -26.8158580604534),
        (21.62434375, -28.56073125),
        (21.778491344537816, -29.254584957983194),
        (21.9928726215291, -30.22546573221757),
        (22.298107250859108, -30.830159278350514),
        (22.703645194250193, -31.61432564102564),
        (23.150684988776653, -32.04120379188713),
        (23.666477301561873, -32.53162973568282),
        (24.352727837076323, -32.8549336827712),
        (25.12504182648402, -33.18867739726027),
        (26.256443471758022, -33.42552113970588),
        (27.18248221033868, -33.62357801120448),
        (27.94577306949807, -33.50700048262548),
        (28.809313944395413, -33.351192718446605),
        (29.51190471226022, -33.14606467889909),
        (30.20681809815951, -32.91714938650307),
        (30.772219131701632, -32.48469230769231),
        (31.269684328633932, -32.07654005347594),
        (31.814980518018018, -31.44050518018018),
        (32.21083703009828, -30.958643693693695),
        (32.55321905118602, -29.88120468164794),
        (32.73880441494149, -29.18182376237624),
        (32.80154325208307, -28.19137339261286),
        (32.81496887317013, -27.68899303112314),
        (32.50266570848146, -26.861685754189942),
        (32.39781927272727, -26.510591276595743),
        (31.365036702127657, -25.29672393617021),
        (31.18817417218543, -25.083996854304633),
        (30.96186148325359, -24.96392033492823),
        (29.730729591836745, -24.11543265306123),
        (29.656726744186052, -24.05927093023256),
        (29.60786635220126, -24.02293364779874),
        (28.20101297055058, -23.729857981220658),
        (27.573002405063292, -23.641001265822783),
        (26.692397564593303, -23.939743684210526),
        (25.820720253164556, -24.25473101265823),
        (25.080241257689675, -24.83151992481203),
        (24.77587464968153, -25.06351433121019),
        (24.731795656401946, -25.055063776337114),
        (24.7241, -25.01283),
        (25.390740501228503, -24.453634324324323),
        (25.755809375000002, -24.138696875),
        (26.646257086614167, -23.764686220472445),
        (27.50551998284734, -23.41652547169811),
        (29.63244676963812, -23.502961650485435),
        (29.774809493670883, -23.512658860759494),
        (29.89847020202021, -23.575248989898995),
        (31.589993333333332, -24.5268525),
        (31.844447168271582, -24.82213276481149),
        (33.13353828571428, -26.132203714285712),
        (33.55147932974866, -27.06839484181568),
        (33.80086793478261, -27.687474048913042),
        (33.78803503067485, -28.661053803680982),
        (33.76582250647741, -29.40860724907063),
        (33.466707086846114, -30.482701955307263),
        (33.17527069741282, -31.51056507311586),
        (32.62682653504744, -32.168572222222224),
        (32.04635688990115, -32.880526652452026),
        (31.34967225342598, -33.43459076433121),
        (30.726345612527716, -33.93201798780488),
        (29.777996060606064, -34.28924343434343),
        (28.998282084534104, -34.55946325648415),
        (27.99265371443442, -34.716202671755724),
        (27.1951319038817, -34.845439648798525),
        (25.876675432088497, -34.62063536139067),
        (24.867799862283793, -34.43011844003607),
        (23.773830313901346, -33.904452959641254),
        (22.976305681818182, -33.530075),
        (22.444271147351376, -33.047147455470736),
        (21.63122400508044, -32.30165245554615),
        (21.281324027589324, -31.631710447761193),
        (20.747026334164588, -30.60282306733167),
        (20.559623673469385, -29.841175714285715),
        (20.25604131147541, -28.64845393442623),
        (20.333511631799162, -26.710274351464435),
        (20.3675689693155, -25.517690991345397),
        (20.734327929089442, -23.524123730862208),
        (20.95530039410244, -22.46300903151422),
        (20.953675346708465, -21.604954551724138),
        (20.94049112578903, -19.61750153901217),
        (20.905276528799444, -18.09694435114504),
        (20.905728963117607, -17.62720490605428),
        (20.47834354620586, -16.216294402704733),
        (20.4089721751026, -15.972046306429549),
        (19.577352033310202, -15.131401908396946),
        (19.278795269485347, -14.808011812778602),
        (19.222147721194112, -14.776514338781576),
        (18.170260000000003, -14.160816666666667),
        (17.890593333333335, -14.09365),
        (16.24134816542015, -13.747537725472943),
        (14.940157492300925, -13.895180268367795),
        (12.854184330616997, -14.07213533178114),
        (11.234649095847885, -14.794774291812185),
        (9.542914913294798, -15.460211849710984),
        (9.328692727272728, -16.28455),
        (9.180059, -16.65895),
        (9.838116487922704, -19.835157729468598),
        (9.838535471366066, -19.84048090909091),
        (9.843282090909092, -19.884057692307714),
        (10.16075425981873, -23.12924003021148),
        (10.125056978851964, -23.26589501510574),
        (9.216824990328819, -26.40247340425532),
        (9.136165382978724, -26.491198936170214),
        (6.752372333333357, -28.91480333333331),
        (6.659293893617023, -29.007941063829787),
        (6.6529661459415586, -29.014493392857144),
        (4.698182098569158, -30.416987678855325),
        (4.458449083887657, -30.560658536585365),
        (2.8004379935562524, -31.483349042145594),
        (2.571658720671444, -31.619197302904563),
        (0.045879814072229796, -32.72151242661448),
        (-0.49560151719367596, -32.97893695652174),
        (-1.9678976851248429, -33.70592518557795),
        (-2.429041752688172, -33.97243752688172),
        (-3.6893136415694587, -35.124571420996816),
        (-4.110945325031134, -35.50573082191781),
        (-4.854566009861325, -36.52081101694915),
        (-5.093412482276898, -36.9308627293578),
        (-5.193135560076288, -37.35553531468531),
        (-5.439305760997067, -38.368831451612905),
        (-5.392446314131414, -39.9667301980198),
        (-5.358187656260306, -40.839122914147524),
        (-4.679698569417581, -42.22456702127659),
        (-4.243529647869674, -43.07155764411027),
        (-3.1862447623642947, -43.82638148371532),
        (-2.4289130139122093, -44.394928100263854),
        (-1.2471657190606964, -44.64322220543807),
        (-0.20417073018284831, -44.8486902266289),
        (1.208624985002309, -44.64445592216582),
        (1.903140907668232, -44.52301025039124),
        (3.056799810093822, -43.88302046263345),
        (3.3824261181054243, -43.6993631092437),
        (4.3699307269155225, -42.633768860510806),
        (4.461576455696203, -42.52936265822785),
        (4.89566191204589, -41.32762131931166),
        (4.9119162962962974, -41.28979888888889),
        (4.922251366906475, -41.034779496402884),
        (5.033826523605151, -40.4017517167382),
        (5.207429190909091, -39.690000000000005),
        (5.55887566666667, -40.828550000000014),
        (5.678565039348712, -41.205163432835825),
        (5.688562474903475, -41.35776196911197),
        (5.330239621572211, -42.800707038391224),
        (5.291449197939172, -42.92854634369287),
        (4.003079095121095, -44.28245579150579),
        (3.983055202531645, -44.309933544303796),
        (3.9488388358995996, -44.335744895591645),
        (2.4847500390624995, -45.4532466796875),
        (1.9082936874325696, -45.60591659340659),
        (-0.1710241228142293, -46.13201956521739),
        (-1.2513467282225224, -45.96203432835821),
        (-2.8306697750071246, -45.7819539184953),
        (-3.950447106035888, -45.01115391517129),
        (-4.96529236522661, -44.33111093294461),
        (-6.138661928620546, -42.76974954614221),
        (-6.908923115074798, -41.711520886075945),
        (-7.259640909090908, -39.401450000000004),
        (-7.451395713666466, -38.22152523178808),
        (-7.366029692307692, -37.57332692307692),
        (-7.1679019554437655, -35.93239308300395),
        (-6.869847152211772, -35.35990095785441),
        (-6.127569640176337, -33.698801900393185),
        (-5.594131811461387, -33.10744596774193),
        (-4.130437571779572, -31.59611344916345),
        (-3.5173405850843755, -31.17561491017964),
        (-1.7785765537820957, -30.151353435114505),
        (-1.1048699961685808, -29.784088314176245),
        (0.7570252456965089, -28.7491283269962),
        (1.7070045284552842, -28.072885772357726),
        (1.946997506913446, -27.883432035928145),
        (3.16385630744868, -26.735243161290324),
        (3.3197360270270275, -26.577503378378378),
        (4.069082329283111, -24.967709538274605),
        (4.096999657912458, -24.918623015873013),
        (4.241111983086683, -23.781145348837192),
        (4.391154632569903, -22.70646916537867),
        (4.393993719685261, -22.671712751159195),
        (2.7795412443181813, -20.17895),
        (2.77126, -20.165075),
        (2.7542037534090915, -20.153912500000004),
        (0.025835602247999356, -17.955661078140455),
        (-0.8259763841472227, -17.43118473585788),
        (-1.2812667311827954, -17.171464913510988),
        (-1.7098254975137062, -16.923327793361384),
        (-2.395120673306773, -16.536210779105797),
        (-3.2639064452493054, -16.02521759628154),
        (-4.389581278085515, -15.442883293508563),
        (-5.31830235207567, -15.060421098265897),
        (-6.605387522858644, -14.437084682080926),
        (-7.681890009171838, -14.286312611275964),
        (-8.847372463717292, -14.112098961424332),
        (-10.738085244752531, -14.072642355452077),
        (-12.613717997671712, -14.007504637175009),
        (-15.055914748544204, -13.978453493912124),
        (-16.04459367919534, -13.971993885653784),
        (-17.804206666666666, -14.369250000000001),
        (-18.10954, -14.436416666666666),
        (-19.24129447791436, -15.033712555720653),
        (-19.30189418073754, -15.06425193164933),
        (-19.600141603053434, -15.387701908396945),
        (-20.431102881482403, -16.22834630642955),
        (-20.50017615531726, -16.468695078888054),
        (-20.92749130322009, -17.85862807933194),
        (-20.927514009715473, -18.31097824427481),
        (-20.964373285612027, -19.771699821045097),
        (-20.976758344827587, -21.67049137931034),
        (-20.976913481936972, -22.490506341275943),
        (-20.749315906526995, -23.54270503626108),
        (-20.367555312924683, -25.517690991345397),
        (-20.333497742868012, -26.710274351464435),
        (-20.256021311475408, -28.64845393442623),
        (-20.559603673469386, -29.841175714285715),
        (-20.74700633416459, -30.60282306733167),
        (-21.28130990049751, -31.631710447761193),
        (-21.63121400508044, -32.30165245554615),
        (-22.444255351993213, -33.047147455470736),
        (-22.97629, -33.530075),
        (-23.773810313901347, -33.904452959641254),
        (-24.867785446348062, -34.43011844003607),
        (-25.876665432088497, -34.62063536139067),
        (-27.195116328348178, -34.845439648798525),
        (-27.99263828244275, -34.716202671755724),
        (-28.998272084534104, -34.55946325648415),
        (-29.77798606060606, -34.28924343434343),
        (-30.726330345528456, -33.93201798780488),
        (-31.34965719745223, -33.43459076433121),
        (-32.04634181236674, -32.880526652452026),
        (-32.62681171717172, -32.168572222222224),
        (-33.17526552612741, -31.51056507311586),
        (-33.46669229050279, -30.482701955307263),
        (-33.76580827757125, -29.40860724907063),
        (-33.78802921807027, -28.661053803680982),
        (-33.80086793478261, -27.687474048913042),
        (-33.55147211454295, -27.06839484181568),
        (-33.13351828571428, -26.132203714285712),
        (-31.84444385506773, -24.82213276481149),
        (-31.589991795454544, -24.5268525),
        (-29.898460881542707, -23.575248989898995),
        (-29.77479991944764, -23.512658860759494),
        (-29.63243676963812, -23.502961650485435),
        (-27.50550998284734, -23.41652547169811),
        (-26.646247086614167, -23.764686220472445),
        (-25.755799375000002, -24.138696875),
        (-25.390730501228504, -24.453634324324323),
        (-24.724082454545456, -25.01283),
        (-24.731775656401947, -25.055063776337114),
        (-24.77585464968153, -25.06351433121019),
        (-25.08022716336295, -24.83151992481203),
        (-25.820714321058688, -24.25473101265823),
        (-26.69239263157895, -23.939743684210526),
        (-27.572986311852706, -23.641001265822783),
        (-28.20099876653863, -23.729857981220658),
        (-29.607856838193253, -24.02293364779874),
        (-29.65671674418605, -24.05927093023256),
        (-29.730719591836742, -24.11543265306123),
        (-30.96185148325359, -24.96392033492823),
        (-31.18816566676701, -25.083996854304633),
        (-31.36502830270793, -25.29672393617021),
        (-32.3978058336557, -26.510591276595743),
        (-32.50265216861351, -26.861685754189942),
        (-32.81495575470538, -27.68899303112314),
        (-32.801526730506154, -28.19137339261286),
        (-32.738788514851485, -29.18182376237624),
        (-32.55319905118602, -29.88120468164794),
        (-32.21082231981982, -30.958643693693695),
        (-31.81497051801802, -31.44050518018018),
        (-31.269669304812833, -32.07654005347594),
        (-30.772204102564103, -32.48469230769231),
        (-30.206812911321805, -32.91714938650307),
        (-29.511894370308593, -33.14606467889909),
        (-28.809298543689323, -33.351192718446605),
        (-27.94576306949807, -33.50700048262548),
        (-27.182467731092437, -33.62357801120448),
        (-26.256433471758022, -33.42552113970588),
        (-25.125026271481943, -33.18867739726027),
        (-24.352723381950774, -32.8549336827712),
        (-23.666468689627553, -32.53162973568282),
        (-23.15067638688472, -32.04120379188713),
        (-22.703636857031857, -31.61432564102564),
        (-22.29808725085911, -30.830159278350514),
        (-21.992856652719666, -30.22546573221757),
        (-21.778481344537816, -29.254584957983194),
        (-21.62433375, -28.56073125),
        (-21.785339664147774, -26.8158580604534),
        (-21.899974933123524, -25.71286526357199),
        (-22.184268443113773, -24.71292005988024),
        (-22.752349900230236, -22.79079144282425),
        (-23.282681666666665, -20.824299599358977),
        (-23.487229578872235, -20.01993600999286),
        (-23.89409766590389, -18.150529252479025),
        (-23.982254615384615, -17.684429510489508),
        (-23.90917224941725, -15.580675867269987),
        (-23.897830795217306, -15.281213187195547),
        (-23.264533277797895, -13.47033804780876),
        (-22.925378552437223, -12.597459453471197),
        (-21.04146242990654, -11.18046308411215),
        (-20.687960195412064, -10.91777523364486),
        (-20.145544672897195, -10.618529138487682),
        (-17.103963076923076, -8.933795272727272),
        (-15.58712132867133, -8.42688758041958),
        (-13.4088886579934, -7.674483001762425),
        (-13.050429249206909, -7.448857199859006),
        (-12.091443787878788, -7.107898378787879),
        (-11.850916666666667, -6.956199),
        (-11.396822440087146, -6.79111423073876),
        (-14.130149701600041, -5.87134540891084),
        (-14.710770503678551, -5.7870362440705865),
        (-15.759711218295005, -5.470108403508772),
        (-18.526571457393782, -4.689803705435557),
        (-19.01356924281984, -4.486142778067885),
        (-21.26081667161961, -3.6118359643387814),
        (-21.400879177360526, -3.538301937592868),
        (-23.84656106412967, -2.4702627286821706),
        (-23.879656279069767, -2.447816217054264),
        (-24.59226592592591, -2.005733185185194),
        (-26.156770508474576, -1.005625550154083),
        (-26.238891558752997, -0.9290026762589918),
        (-28.197939063111296, 0.9051253861834657),
        (-28.376553766233766, 1.1181568614718627),
        (-30.000925714285714, 3.1050520995671),
        (-30.180065353187043, 3.308276926123303),
        (-31.782575596791443, 5.113927253796792),
        (-31.944787801710486, 5.236909567627495),
        (-33.930351491953026, 6.692874525445847),
        (-35.518485938735175, 7.556146305335969),
        (-35.57396745561497, 7.57506523828877),
        (-37.29046029827832, 8.153300885733085),
        (-37.518488251748295, 8.199783349650358),
        (-38.37346956139729, 8.380649535109473),
        (-40.19190032482599, 8.3105873387471),
        (-40.21928826197005, 8.30932831301413),
        (-41.365599259259255, 7.990255451178451),
        (-42.50636091402014, 7.325229593127244),
        (-42.52224176818534, 7.3128364237025565),
        (-43.598063178294574, 6.4572989478505995),
        (-44.08843870523415, 5.486198931129499),
        (-44.543748453820115, 4.608298744680852),
        (-44.55161642564982, 4.579184494920174),
        (-44.795975864453666, 3.43459397749277),
        (-44.794378726708075, 3.3254998260869555),
        (-44.73775445666578, 2.165594565597668),
        (-44.68986003338898, 1.9413655225375614),
        (-44.42846298721372, 0.8720306662919768),
        (-44.24983444846293, 0.500327599901363),
        (-43.7340971907725, -0.4944010235847626),
        (-43.35625005531993, -0.9338686737967923),
        (-42.755528096947934, -1.568571339317774),
        (-42.18546223417608, -1.8576483944773186),
        (-41.69291375041932, -2.133550583025831),
        (-40.27500561497326, -2.3360116363636374),
        (-39.8694812133734, -2.395053371900827),
        (-39.589456367041194, -2.3286056779026225),
        (-38.47634833333334, -2.1883396666666677),
        (-38.2161611969112, -2.1659966486486493),
        (-37.974087681159425, -2.1419871304347833),
        (-37.0539276119403, -1.5795664613297182),
        (-36.22006639657444, -0.9858103509222663),
        (-35.99177703703704, -0.5391715387766589),
        (-35.39504343361674, 0.6872540276651405),
        (-35.36869496644295, 0.8430525854179354),
        (-35.202396043165464, 1.9796570359712236),
        (-35.19496343283582, 1.9992811044776118),
        (-35.18899888888889, 2.0030520208754203),
        (-35.18332720588235, 1.9995644999999997),
        (-35.17927251556662, 1.98016295890411),
        (-35.32909863636363, 0.8354519136363611),
        (-35.34827244897959, 0.6730294510204083),
        (-35.477730799999996, 0.37502871701818696),
        (-36.115894342751844, -1.0443628648648646),
        (-37.00456193722943, -1.8467063333333287),
        (-37.789531632653066, -2.521901061224489),
        (-38.414190163934435, -2.7361684918032796),
        (-39.766893383947945, -3.1409050498915394),
        (-40.31367253521127, -3.1216282816901404),
        (-42.02143525519848, -3.146603387523629),
        (-42.713810271646864, -2.8895553005093375),
        (-43.63621060070671, -2.4977271519434625),
        (-44.45220292929293, -1.7099684040404046),
        (-44.89526307888805, -1.290085685950413),
        (-45.6396889010989, -0.04822107692307773),
        (-45.84121546160361, 0.2830372484472051),
        (-46.26792260504202, 1.8490084705882346),
        (-46.32473221574344, 2.046916139941691),
        (-46.404162597200624, 3.774479371695178),
        (-46.409436394941146, 3.8459839559228652),
        (-46.095584935064934, 5.201223428571447),
        (-46.00843380681818, 5.556670755681818),
        (-44.78135558935361, 7.759170283097131),
        (-44.738533155893535, 7.794885079847909),
        (-43.457822011605415, 8.838263605415861),
        (-43.40168584139265, 8.867055127659574),
        (-41.77931794676806, 9.681891956100932),
        (-40.28151394636015, 10.027840495646117),
        (-40.24266796934866, 10.03719827586207),
        (-37.559808852459014, 10.084569672131149),
        (-37.54192852459016, 10.085045628415301),
        (-36.939243939393954, 9.937350787878794),
        (-36.01734770015187, 9.704519049251465),
        (-35.98279894671623, 9.69223429582066),
        (-33.53795731267545, 8.877894686460808),
        (-33.441694134225244, 8.82275788814563),
        (-31.772139266516756, 7.8958668189313626),
        (-31.6052274251497, 7.760636314643439),
        (-29.70315395348837, 6.217383340380549),
        (-29.50285204625763, 6.00793946321876),
        (-27.945216017615603, 4.351800262661214),
        (-27.724419729729732, 4.114721394963144),
        (-26.290111654749744, 2.5278789662921346),
        (-24.93602077798245, 1.341469282479142),
        (-24.810368790728603, 1.2419652641873276),
        (-23.20566711111111, 0.5039109645656565),
        (-23.19585550387597, 0.49963446779422105),
        (-23.04073999999999, 0.4511722563636331),
        (-21.075124246061517, -0.19698205843960997),
        (-20.956400990247563, -0.21543464658664663),
        (-18.43329769980507, -0.5793399651899109),
        (-17.762996335282654, -0.5705853020142951),
        (-14.686541886792453, -0.6179386974271013),
        (-14.16654566037736, -0.4584178799313895),
        (-12.238167249683144, -0.10339011314667595),
        (-12.048992598225603, 0.09493810424780114),
        (-11.434406533127888, 0.548328214329738),
        (-12.061923194795808, 1.0096926760291751),
        (-12.252020391300062, 1.3257203411637153),
        (-13.273099989518553, 1.9496852820906998),
        (-13.63667804765565, 2.156483744811683),
        (-14.98761148347425, 3.0072801050241074),
        (-16.31290654056326, 3.7327158415300543),
        (-17.47047051702396, 4.467765943979518),
        (-18.805969032258066, 5.2491379914279275),
        (-19.744846413264153, 5.8500657829912015),
        (-21.313840310763783, 6.828671995115697),
        (-21.760720188045667, 7.283062592832285),
        (-23.578762207792206, 9.208967285714282),
        (-24.13456233057851, 9.8310492446281),
        (-24.173934264159527, 9.956412491091061),
        (-24.92816475244362, 12.659147962052003),
        (-24.603885064377682, 16.474625250357654),
        (-23.740258135487103, 18.613442011019284),
        (-23.399807866462012, 19.482226362240983),
        (-22.718016916167663, 21.438030538922153),
        (-22.396746209856232, 22.45136526357199),
        (-22.331516400274786, 23.55394084802687),
        (-22.22993375, 25.29813125),
        (-22.386249915966385, 25.92412142857143),
        (-22.587118661087864, 26.794778870292888),
        (-22.910558189581554, 27.39731293766012),
        (-23.344000996369815, 28.19831873406967),
        (-23.9375303030303, 28.77823205128205),
        (-24.60429159010601, 29.44911819787986),
        (-25.371660437956205, 29.835370437956204),
        (-26.243404716636196, 30.25297851919561),
        (-26.961428682745826, 30.306906586270873),
        (-27.790137198879552, 30.359385294117647),
        (-28.696997658536585, 30.2022816097561),
        (-29.682429773844643, 29.995819911504427),
        (-30.449222558139535, 29.55751353065539),
        (-31.127445396825397, 29.0939826984127),
        (-31.647989944506104, 28.46753923418424),
        (-32.04125911111111, 27.987764555555557),
        (-32.50397153374233, 26.902169754601225),
        (-32.770865853658535, 26.185701463414635),
        (-32.82064685871056, 25.020313511659808),
        (-32.822309282814615, 24.42639303112314),
        (-32.50549139664804, 23.599085754189943),
        (-32.3978058336557, 23.247991276595744),
        (-31.36502830270793, 22.035047872340424),
        (-31.18816566676701, 21.822496854304635),
        (-30.96185148325359, 21.70242033492823),
        (-29.730719591836742, 20.85393265306123),
        (-29.64800517571885, 20.79281517571885),
        (-29.607291643192486, 20.763275352112675),
        (-28.08129243445693, 20.45590767790262),
        (-27.576188356807513, 20.389938262910796),
        (-26.504162092764382, 20.757312857142853),
        (-25.827658018867925, 21.004933490566035),
        (-25.563782351981352, 21.153132307692307),
        (-25.154486613891727, 21.451698876404492),
        (-25.502151275510204, 21.09019107142857),
        (-25.738428118096856, 20.8454285046729),
        (-26.892059487694624, 20.369673756906078),
        (-27.497449345794394, 20.127992056074767),
        (-29.683002025316448, 20.240690506329113),
        (-29.776196603773585, 20.24805471698113),
        (-29.898460881542707, 20.314774242424246),
        (-31.589991795454544, 21.265352500000002),
        (-31.84444385506773, 21.56045053859964),
        (-33.13351828571428, 22.869603714285713),
        (-33.55287204951857, 23.805794841815683),
        (-33.80227753087945, 24.424874048913043),
        (-33.80400857988815, 25.554209589867313),
        (-33.785873397713395, 26.456192735042737),
        (-33.40242480392157, 27.417105882352942),
        (-32.93022714775247, 28.62972915742794),
        (-32.384642582621794, 29.308962707182317),
        (-31.824917723444972, 30.022619157894738),
        (-30.77959560669456, 30.667062343096234),
        (-29.888071813755865, 31.19783169425511),
        (-28.65772803088803, 31.405857335907335),
        (-27.68799155940178, 31.581126340110906),
        (-26.925082752962627, 31.5383112579763),
        (-25.8657291598916, 31.492427235772357),
        (-25.01753990102961, 31.07793937664618),
        (-23.795313871965732, 30.472989965095987),
        (-23.07697220023015, 29.828628396624474),
        (-21.97976507346189, 28.83267777777778),
        (-21.6061247576761, 28.170946688741722),
        (-21.0327525807913, 27.166926910299004),
        (-20.820727428571427, 26.474966408163265),
        (-20.455786887481374, 25.38585393442623),
        (-20.477531548117156, 23.447674351464435),
        (-20.49829397324941, 22.25549319433517),
        (-20.929545207677094, 20.23260777598711),
        (-21.188684091258473, 19.157146848578016),
        (-21.77237597018182, 17.063638),
        (-22.03866094887179, 16.13062137733142),
        (-22.15582181126332, 13.518502511415525),
        (-22.18638919636618, 12.702478860936408),
        (-21.989489144542773, 12.292867050147493),
        (-21.114713748308528, 10.608078822733424),
        (-21.00603789029536, 10.538736660529343),
        (-20.42652575098814, 10.175913671936756),
        (-19.25886409028728, 9.39700782862828),
        (-19.012926060191518, 9.224552410396717),
        (-18.7936169680388, 9.148506849023754),
        (-17.236781365461848, 8.895279670317635),
        (-16.55242514056225, 8.853177662285507),
        (-15.286186615322254, 8.762651024836938),
        (-14.187620299959466, 8.939444052806131),
        (-12.969017033492824, 8.966239602870813),
        (-12.340177833783379, 9.52010015926138),
        (-10.472334455609197, 10.554994374437443),
        (-9.945373190300849, 11.377743549354935),
        (-9.726739964464851, 12.371978245951139),
        (-9.172063614403713, 14.402422961844634),
        (-8.913498413132695, 15.498490355677156),
        (-8.131291709986321, 16.903737961696308),
        (-7.552932397723902, 17.946063616137646),
        (-7.071593240203878, 18.22610304064076),
        (-6.05370751627385, 19.13448091168091),
        (-6.047818870620203, 19.140960330361825),
        (-6.044582331695332, 19.14263108108108),
        (-6.057877559139785, 19.20112634408602),
        (-6.346836413347981, 20.49469259818731),
        (-6.070152605415861, 23.854260638297873),
        (-6.063316796905222, 23.97553936170213),
        (-5.398866444444451, 26.473267777777757),
        (-5.37000798303737, 26.57189839650146),
        (-5.367740358768007, 26.575741803278692),
        (-3.9538550711382108, 28.821279878048777),
        (-3.842939595480225, 28.956972372881356),
        (-2.28435846031746, 30.68602439153439),
        (-2.0441190693834885, 30.94827842215256),
        (-0.07693699236901018, 32.52823669950739),
        (1.5832581253109121, 33.44101878612717),
        (2.0860712304687503, 33.759799609375),
        (3.6439736933461906, 35.11893457087753),
        (4.102558532721655, 35.52245731204943),
        (4.923202312523191, 36.57459959183674),
        (5.0777096894409945, 36.98563260869565),
        (5.167354957983194, 37.36068361344538),
        (5.422091373936874, 38.39082692307692),
        (5.371153718843471, 40.04495299102692),
        (5.338304810491028, 40.827338286334054),
        (4.620550644285577, 42.290590807651434),
        (4.2272248334521025, 43.05065078387458),
        (3.0952544545454552, 43.856669696969696),
        (2.4151309047213045, 44.36484906213364),
        (1.3799379064969368, 44.57816889035667),
        (0.2030001087504256, 44.807329026217225),
        (-1.014351625231912, 44.62444416909621),
        (-1.8792688937329702, 44.47033828337875),
        (-2.865053340354768, 43.91641189024391),
        (-3.3367251252144086, 43.648459433962266),
        (-4.163782016583749, 42.74171782752902),
        (-4.387177230293664, 42.48452557959815),
        (-4.750206533980583, 41.464914563106795),
        (-4.831281000000001, 41.275040393700785),
        (-4.874867413342054, 39.75972913669065),
        (-4.983139000000002, 39.779250000000005),
        (-5.6213299400386845, 39.61569893617022),
        (-5.640739397653959, 41.365090645161295),
        (-5.54123770967742, 41.69300419354839),
        (-5.2052024690019465, 42.99475733944954),
        (-4.936675558271237, 43.355789016393445),
        (-4.133007236051502, 44.43872639484979),
        (-3.5600852883869187, 44.86291890243902),
        (-2.5856937695818427, 45.581317571234734),
        (-1.2322711190909104, 45.93006),
        (0.1608385382727273, 46.259575),
        (1.7365781648429088, 46.00393449408673),
        (2.8468431018518516, 45.86612743055555),
        (4.256296545562899, 44.89123009535161),
        (4.995079966769783, 44.38911180021954),
        (6.380004119331006, 42.54066106094808),
        (6.952215063811189, 41.74905192307692),
        (7.349461253825382, 39.13993118811881),
        (7.490684559925788, 38.2612581632653),
        (7.423452432835821, 37.77020880597015),
        (7.202182780487805, 36.0074131097561),
        (6.960150369047618, 35.57710565476191),
        (6.101460821862348, 33.83537813765182),
        (5.62992931724461, 33.371372164948454),
        (3.8474323207649777, 31.76261410767697),
        (2.056944251000573, 30.584706603773586),
        (1.6163872697599135, 30.26859866468843),
        (1.3550732860903671, 29.94790892857143),
        (0.4001953975927917, 28.697926627218937),
        (-0.36884680624752175, 27.03094937694704),
        (-0.5169385745180364, 26.724205607917057),
        (-0.5741684070001553, 26.454760562180578),
        (-0.8981726969152933, 24.49638052064632),
        (-0.8786989969234652, 24.347400762829405),
        (-0.44431434975902834, 22.374085657225855),
        (-0.06148776779719839, 21.08726538461537),
    ];
    let layer = vec![points
        .iter()
        .map(|&(x, y)| Coord { x: (x * 1e9).round() as i64, y: (y * 1e9).round() as i64 })
        .collect::<Vec<Coord>>()];

    let _collated = layer.collate().unwrap();
}
