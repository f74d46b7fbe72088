//! PPMd.
use compcol::error::Error;
use compcol::ppmd::allocator::Ppmd7;
use compcol::ppmd::arena::{state_store, swap_states, Arena};
use compcol::ppmd::model::Model;
use compcol::ppmd::range_dec::{Mode, RangeDec};
use compcol::ppmd::Ppmd;
use compcol::traits::{Algorithm, Decoder as _, Encoder as _, Status};

const ABRA: &str = "\
    0061037c3b105fee1033f70e64bd63d102ff";
const WORDS: &str = "\
    0076f65970dbdf4974993348aca9db1aa6eb3d93e99d3e8e65707fcadfa2e1874f9f3633486fbd07a741d20af338\
    4018a983c89a2dc92d839becda90143405bbec9d7d428d11708d7536197c2b94e677ada9b578032b1bfc2885d120\
    795c08f0482ef27ad6713e67599900d735c8ed3761bd4f6c6d115a671631cc88263c373c02f6e936e802ad912e46\
    2623dbc0ae02325fc7e6b7e01b1b3c20c9afe712bc1691d638fde897dead01a8e2cfbddab176699f442b04618b97\
    ec944d8823f302763ff92f24ab3c445b55a193bd2c51253db0eb48b93ce9e60a13f04aeef36d03289b1599d6202e\
    8f82d9aeafd0c21d821726411d18978c45fa64e212de7c9e67b01085842f5aee0ca32c19dff76c94a6e671e9dfc8\
    4c609ad7294321d521b0e62c22d332735c4641cf0232a5b145ed38903f4e10870f7da9baa20c4c84b73957c1576f\
    3535af483304c89f9ec191cd7f6b1a378ba3c2dee14a89e32dcfcf073da82a38dc189e9fe30e41a608cb9b0e69ad\
    2714f5560d744720d33fb1a9af4db30f8d1ed419abd45ab866ee3207acb8c59818a5fdc660e171f326557ef4382d\
    2c31cb9b307efaa998b694ae536b47f7fcb287b2698b256fcef360276a371c6503a8a3565031e5b9e6279b314cce\
    2883624cb5552df50b09d0ad584d45ac8c6d35fd9b72a4";
const TIGHT: &str = "\
    0076f65970dbdf4974993348aca9db7a89b456779d601404fcad36dbdee73449559666844c11f3e4b18b6805cd65\
    446008018323f7ac50cafab9a540dad4c90efa464772ec72e15cdd0fbfdff804c8ac0537c0188c19da290a0eb3f0\
    680242ba43ccac05d55aa396238008cdfa323815d8fdefcf17c401e405c4cf23d403d1775d27db3af4c6d08decf2\
    790939740bd0acf27a311288e5d575529350eaf1b2e1734272a579198499c94fa51d7604bc295c4b391c49b94f21\
    0c7f1bef90989e4dd7ccf221faa4c28669ff5caec5f95ab4f73379ab3f34cd1cc76c16087925c50efd84e87ef4e1\
    f5fa2cced1e344ac279e217d71dfeeeebc4f9b162959ad7660810bead06d7a9a9e9dbd0f446d3a9f79d69f8f16d6\
    4c3e1af99ea9f906edb094d15e8046dce37b9522c3490c5a752e20db0d609625043fcd771adec51c5fec9cde96fc\
    82e94336cac4a58454f0932444b339c2b5a183273fc5a343a86cc25ad32299e22d7700ee3bf0fe2ad9ef4f7db8c4\
    5adc500e54e26298ea8b8cabed3a4e3b5d5b08515d03a827d5ad2dd940f87b19b161e4d6fbfa0f403e18e4f51494\
    9b2cb6a78e9ff4949ec9f5e9b0fa3301ae968e9429061315a7a365928d3dbccf4d40dbe6edb105e29afea2fb239a\
    5d249b1f23327b7697a0d9bda4c0747d2d89b56a5c29bb519bea45454cab94fb4a8bd73d02b9a97321397e52662c\
    3900aeee00aac513bf74b4f23bf1fb4c13f08c6bc55d44ecd899bc437cea04e25ceb95e9e0aafd908fb1b3c3857c\
    a59617859597642535fbfe1b6b037f1a19f910c7f0bf5d02f3bfa7302a04e2282f4745ed58b41ac74d5126524b62\
    f94fb745140cc9e5ce4e8bcf14b3f2f4bf7ea8cb90e1b60bf6e1697f4c6fe3bdc7eea049817ff23d0facedd74006\
    4c40dcd65e45380cbe5fe67e4777d499bca95872fec46720aee6e637b0bc3abeac880117e3d1d43daa7fbdd5ae9e\
    4cec6a6162d8526daadecd54d773ba5289a3de488cea190a8c2753131116c39438fbb57f9267f0dc8b06c30962f1\
    089cb37ba484b9528daa21e9e26b433ff0";
const TIGHTER: &str = "\
    0076f65970dbdf4974993348aca9db1a9ea5bf917eb679780875dc5731797289ea6c8cb5d230c308880fc1533362\
    a7de9df5065d587c1dfda9196f85cb984caf32a31578ed45e168689a51d4a08261abbf6fe64cb0fb72d1d93e5a9f\
    a6de4bbd8241e7710980453ddfbbb82b6917bc70b58f786189531645d7f518e625f51bd04d5a38e98c1ddb726817\
    b070ac77f002f3b505fca58113d491a2d7f24f96abe698242a6df3b7b252732dd36d7f7697ca92e06d2be70d0e1d\
    e7610253aa3f791058d92c82381397f9b590b8df4f576d4ee51805b6efac42c00a9dd7ce7a37af9d0014948ba411\
    2b36a5124bd06a4700c69e07f44377c23a763f02d679adf580a7d6fab088c344ae239261327cbc8723cf69dbcc30\
    3013f34c532cbab15f2337aa17839d65264abcc3743be959795201df55b9f0fca87cfd5f27c9ce788eccb723376c\
    43a5e17e3419770df4208cd307e43b9f94fc13bf7078f5f49b0ec9e54d79fbaf0cc4c0296571c52f0eef1d34001c\
    0ac5c1d422e8e63ce121bdd5ef69ad7077a8b96d071ab05d0f924717752d1c154de0c70392a42b90cc53a054252a\
    c5a868b144eee29b7cedea391fae41679190352f0d95cbf92ec5fecc609db9f0e430fc3419cb70770a5f431a8fe9\
    3818d04af4a75909eb7f2495fe1bb0b23535a855da00c1ace37929a5fa7b9e90def738420bfd48ed92bc8e4d7910\
    9b22fd81e052d47d827bd42714994970a4d11710b5c4f0747d332dde1fc268aee135b0c4e03f3af3a870f20fb02f\
    65c181077a7ecbcc8e54aeec1915d8b5a9d84e625e8cc5ecbf4fd998c531eadf66fdefbb467cd8368719e79dd8d3\
    2a311df441703e528101a257ddc07f1ea9ecd34216a15fa1dd072923e6baab95bed74db8541a38869f1e3c012d3d\
    07f17d60e6c3885663433b6157ffd46c02fba78bbbbeb685c7026258ea369f2711b5e60ec76bff0a5d244cb8cb7c\
    f854e36fe540539b90c74eb31c70918d4947c11bf17a695a649cfd4882e65d1b39e528130315140eb8a60ce54390\
    44d6cda36e14b5e93ddb36fd9733860aa716c74fe3ca2354a6cb4cc568bca5158e9592e3db8a61a0abbb47dc516d\
    6a511fa700815c697006cbefbaef01c605367e188a14332f89225c02c748797aaf12bc4e5c70062295061834e544\
    c53bcac16fd07c644f441e3b1225f85b2f57547a208eca1db632e016de9d8811046e10cfecb0367d1c604f90d75b\
    19d43e42f9ed921107cd11f65642fb317b7f2a6c63ff14e1a4674e14ba562db41afd9508ff8f00860a84b0aef9e3\
    d8cc2e2f23e9977aa7dd2be70ebfd0dc657971b0c236df9ef8acbf263fbc3bed794008b25c5d1b4b57fb54aacce9\
    15f7c44a97a39f802378c7d47460b70c2565565739e1867d1efc2b64aa3d3227ce6305a14b4bb7c7a7308236a00e\
    685653e43d88efd257244af327f8f3bc993ad964d5096e87b31d50eb3b9a8bf46e80e14d758bc1d4829c3c212302\
    5f3649cb85dde97c27b8564301df1805759f9e99ac7396d6580ed6f243a5e5076c5b86392a637e5bbde6d1165755\
    4684f6a252ad746a8cf4a90276a49f1a4f5f32fc2a235abc3f015cad5c742434f2cc575b222a13c3b4adde130190\
    e812e92647847db7a78a28150b1e4f00";
const RAR: &str = "\
    76f6594446696a01e37b33cbf5771fc69d10dfaf49b964bca48d60df4fef977190a19ecaf903e7ed27c1ab762c3e\
    3cbabf6e11d5c2d9b2957484dc540c846f78b855cdf220df34487b33e6bffa34e96c6446380ab3c6dabd6f79d56c\
    b3219d2471d238e56604f03139ddf9658b26c2aa93f4635ccdc0a9c85120f14c299815832c4a0381d7c4db11cf8b\
    f29db22a35d8f937a6afd0aac953c473e284e4d4e7d81eadea4c1186ee6a28e621b910da53fd1c0fad2c1b0c3802\
    163690580cada417a7a66e8d85f60c5b16289354ca787697de49438c11089cab6f6ee9c31e1880e10bb3a8a6cabe\
    edb6d176a0afc77f91cfe4c809b260f72747b6898c324c4c69322dde4b992e5e7d4bb743f53532053c042b8114c0\
    444b6837dbd96f9aa0cabe68ba00";

fn bytes(hex: &str) -> Vec<u8> {
    let digits: Vec<u8> = hex.bytes().filter(|c| *c != b' ').collect();
    let value = |c: u8| (c as char).to_digit(16).unwrap() as u8;
    digits.chunks(2).map(|p| value(p[0]) * 16 + value(p[1])).collect()
}

/// Text with some noise.
fn words(n: usize, seed: u32) -> Vec<u8> {
    let mut x = seed;
    let mut out = Vec::new();
    while out.len() < n {
        x = x.wrapping_mul(1_103_515_245).wrapping_add(12345);
        let w = (x >> 16) % 50;
        out.extend_from_slice(format!("word{} ", w * w).as_bytes());
        if (x >> 8) % 7 == 0 {
            out.push((x >> 24) as u8);
        }
    }
    out.truncate(n);
    out
}

fn header(order: u8, mem: u8, restoration: u8, len: u64) -> Vec<u8> {
    let mut h = vec![order, mem, restoration];
    h.extend_from_slice(&len.to_le_bytes());
    h
}

fn decode(stream: &[u8]) -> Result<Vec<u8>, Error> {
    let mut dec = Ppmd::decoder();
    let mut buf = [0u8; 100];
    for part in stream.chunks(7) {
        let (p, status) = dec.decode(part, &mut buf)?;
        assert_eq!(p.consumed, part.len());
        assert_eq!(p.written, 0);
        assert_eq!(status, Status::InputEmpty);
    }
    let mut out = Vec::new();
    loop {
        let (p, status) = dec.finish(&mut buf)?;
        out.extend_from_slice(&buf[..p.written]);
        if status == Status::StreamEnd {
            return Ok(out);
        }
    }
}

#[test]
fn ppmd_repeated_text() {
    let want = b"abracadabra abracadabra".repeat(3);
    let mut stream = header(4, 1, 0, want.len() as u64);
    stream.extend_from_slice(&bytes(ABRA));
    assert_eq!(decode(&stream).unwrap(), want);
}

#[test]
fn ppmd_words() {
    let want = words(3000, 7);
    let mut stream = header(6, 1, 0, want.len() as u64);
    stream.extend_from_slice(&bytes(WORDS));
    assert_eq!(decode(&stream).unwrap(), want);
}

fn model_decodes(mode: Mode, code: &[u8], mem: u32, order: u32, want: &[u8]) {
    let mut model = Ppmd7::new(mem).unwrap();
    model.init(order);
    let (mut rc, _) = RangeDec::init(mode, code, 0).unwrap();
    for (i, b) in want.iter().enumerate() {
        assert_eq!(model.decode_symbol(&mut rc), Ok(*b), "symbol {i}");
    }
    assert!(!rc.overran());
}

/// So little memory that the model starts anew several times.
#[test]
fn ppmd_tight_memory() {
    model_decodes(Mode::SevenZip, &bytes(TIGHT), 5000, 2, &words(4000, 7));
    model_decodes(Mode::SevenZip, &bytes(TIGHTER), 6000, 5, &words(4000, 7));
}

#[test]
fn ppmd_rar_range_coder() {
    model_decodes(Mode::Rar, &bytes(RAR), 1 << 20, 6, &words(1500, 3));
}

#[test]
fn ppmd_empty_stream() {
    let mut stream = header(2, 255, 2, 0);
    stream.extend_from_slice(&[0, 0, 0, 0, 0]);
    assert_eq!(decode(&stream), Ok(vec![]));
}

#[test]
fn ppmd_bad_headers() {
    for h in [
        header(1, 1, 0, 1),
        header(65, 1, 0, 1),
        header(4, 0, 0, 1),
        header(4, 1, 3, 1),
    ] {
        assert_eq!(decode(&h), Err(Error::BadHeader));
    }
    assert_eq!(decode(&header(4, 1, 0, u64::MAX)), Err(Error::Unsupported));
    assert_eq!(
        decode(&header(4, 1, 0, 64 * 1024 * 1024 + 1)),
        Err(Error::OutputLimitExceeded)
    );
}

#[test]
fn ppmd_errors_are_kept() {
    let mut dec = Ppmd::decoder();
    let mut buf = [0u8; 8];
    assert_eq!(dec.decode(&header(1, 1, 0, 1), &mut buf), Err(Error::BadHeader));
    assert_eq!(dec.decode(&[], &mut buf), Err(Error::BadHeader));
    assert_eq!(dec.finish(&mut buf), Err(Error::BadHeader));
    dec.reset();
    assert_eq!(dec.finish(&mut buf), Err(Error::UnexpectedEnd));
}

#[test]
fn ppmd_cut_short() {
    let mut stream = header(4, 1, 0, 69);
    stream.extend_from_slice(&bytes(ABRA));
    assert_eq!(decode(&stream[..10]), Err(Error::UnexpectedEnd));
    assert_eq!(decode(&stream[..14]), Err(Error::UnexpectedEnd));
    assert_eq!(decode(&stream[..22]), Err(Error::UnexpectedEnd));
    // The code has to start with a zero, and to be used up.
    let mut wrong = stream.clone();
    wrong[11] = 1;
    assert_eq!(decode(&wrong), Err(Error::Corrupt));
    let mut short = stream.clone();
    short[3] = 15;
    assert_eq!(decode(&short), Err(Error::Corrupt));
}

#[test]
fn ppmd_has_no_encoder() {
    let mut enc = Ppmd::encoder();
    let mut buf = [0u8; 8];
    assert_eq!(enc.encode(b"abc", &mut buf), Err(Error::Unsupported));
    assert_eq!(enc.finish(&mut buf), Err(Error::Unsupported));
}

#[test]
fn ppmd_arena_accesses() {
    let mut a = Arena::new(16);
    assert_eq!(a.write_u16(3, 0xABCD), Some(()));
    assert_eq!(a.read_u16(3), Some(0xABCD));
    assert_eq!(a.read_u8(3), Some(0xCD));
    assert_eq!(a.write_u32(12, 0x0102_0304), Some(()));
    assert_eq!(a.read_u16(14), Some(0x0102));
    assert_eq!(a.write_u32(13, 1), None);
    assert_eq!(a.read_u16(15), None);
    assert_eq!(a.write_u8(16, 1), None);
    assert_eq!(state_store(&mut a, 0, 7, 8, 0x1122_3344), Some(()));
    assert_eq!(state_store(&mut a, 6, 9, 10, 0), Some(()));
    assert_eq!(swap_states(&mut a, 6, 0), Some(()));
    assert_eq!(a.read_u8(6), Some(7));
    assert_eq!(a.read_u16(8), Some(0x3344));
    assert_eq!(a.read_u8(1), Some(10));
    a.clear();
    assert_eq!(a.read_u8(6), Some(0));
}

/// The code `value` for the first symbols of an order-0 model.
fn order0(value: u32) -> [u8; 8] {
    let v = value.to_be_bytes();
    [0, v[0], v[1], v[2], v[3], 0, 0, 0]
}

#[test]
fn ppmd_order0_model() {
    assert!(matches!(Model::new(1, 0), Err(Error::BadHeader)));
    assert!(matches!(Model::new(17, 0), Err(Error::BadHeader)));
    let mut model = Model::new(4, 1 << 20).unwrap();
    // 257 shares of the range; the share of `b` starts at its number.
    let share = 0xFFFF_FFFFu32 / 257;
    let code = order0(share * 0x62 + 5);
    let (mut rd, _) = RangeDec::init(Mode::SevenZip, &code, 0).unwrap();
    assert_eq!(model.decode_symbol(&mut rd), Ok(0x62));
    // Now it has five of 261 shares and stands before its neighbour.
    let share = 0xFFFF_FFFFu32 / 261;
    let code = order0(share * 0x61 + 4 * share);
    let (mut rd, _) = RangeDec::init(Mode::SevenZip, &code, 0).unwrap();
    assert_eq!(model.decode_symbol(&mut rd), Ok(0x62));
    let code = order0(share * 0x61);
    let (mut rd, _) = RangeDec::init(Mode::SevenZip, &code, 0).unwrap();
    model.restart().unwrap();
    assert_eq!(model.decode_symbol(&mut rd), Ok(0x5F));
    // The last share belongs to no symbol.
    let mut model = Model::new(4, 1 << 20).unwrap();
    let share = 0xFFFF_FFFFu32 / 257;
    let code = order0(share * 256 + 1);
    let (mut rd, _) = RangeDec::init(Mode::SevenZip, &code, 0).unwrap();
    assert_eq!(model.decode_symbol(&mut rd), Err(Error::Corrupt));
}

#[test]
fn ppmd_order0_rescale() {
    // The first symbol, again and again: its frequency stays within bounds, and
    // every symbol stays decodable.
    let mut model = Model::new(16, 0).unwrap();
    for _ in 0..1000 {
        let code = order0(0);
        let (mut rd, _) = RangeDec::init(Mode::SevenZip, &code, 0).unwrap();
        assert_eq!(model.decode_symbol(&mut rd), Ok(0));
    }
}

#[test]
fn ppmd_order0_waits_for_input() {
    let mut model = Model::new(4, 0).unwrap();
    let code = [0u8, 0x62, 0, 0, 0];
    let (mut rd, _) = RangeDec::init(Mode::SevenZip, &code, 0).unwrap();
    assert_eq!(model.decode_symbol(&mut rd), Err(Error::UnexpectedEnd));
    assert!(!rd.overran());
    assert_eq!(model.decode_symbol(&mut rd), Err(Error::UnexpectedEnd));
}
