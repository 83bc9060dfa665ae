//! The sizes of a Binary Fuse filter: the length of its segments, which
//! grows with the logarithm of the number of keys, and what follows from it.
//! The logarithms are taken in whole numbers: `log(n) / log(3.33) + 2.25 >= k`
//! says the same as `333^(4k - 9) <= n^4 * 100^(4k - 9)`.

use vstd::prelude::*;

verus! {

/// `base` to the power `exponent`.
pub open spec fn power(base: int, exponent: nat) -> int
    decreases exponent,
{
    if exponent == 0 {
        1
    } else {
        base * power(base, (exponent - 1) as nat)
    }
}

/// `log(size) / log(3.33) + 2.25 >= k`, for a `k` from 3 on.
pub open spec fn reaches3(size: nat, k: nat) -> bool {
    let e = (4 * k - 9) as nat;
    power(333, e) <= size * size * size * size * power(100, e)
}

/// `log(size) / log(2.91) - 0.5 >= k`.
pub open spec fn reaches4(size: nat, k: nat) -> bool {
    let e = 2 * k + 1;
    power(291, e) <= size * size * power(100, e)
}

/// The greatest `k` up to `limit` with `reaches3(size, k)`, and 2 if there
/// is none from 3 on: the floor of `log(size) / log(3.33) + 2.25` for a
/// `size` from 1 on, as long as the floor is at most `limit`.
pub open spec fn exponent3(size: nat, limit: nat) -> nat
    decreases limit,
{
    if limit <= 2 {
        2
    } else if reaches3(size, limit) {
        limit
    } else {
        exponent3(size, (limit - 1) as nat)
    }
}

/// The greatest `k` up to `limit` with `reaches4(size, k)`, and 0 if there
/// is none: the floor of `log(size) / log(2.91) - 0.5`, or 0 where the
/// floor is negative, as long as it is at most `limit`.
pub open spec fn exponent4(size: nat, limit: nat) -> nat
    decreases limit,
{
    if limit == 0 {
        0
    } else if reaches4(size, limit) {
        limit
    } else {
        exponent4(size, (limit - 1) as nat)
    }
}

/// The greatest exponent that a size below 2^32 reaches.
pub const MAX_EXPONENT: u32 = 20;

/// The longest segment that a filter is given.
pub const MAX_SEGMENT_LENGTH: u32 = 262144;

/// The segment length for `size` keys. Where a key touches three slots it
/// is two to the power of the floor of `log(size) / log(3.33) + 2.25`, but
/// `MAX_SEGMENT_LENGTH` at most; for no keys it is 4.
pub open spec fn segment_length_spec(arity: u32, size: u32) -> u32 {
    if size == 0 {
        4
    } else if arity == 3 {
        let power = 1u32 << (exponent3(size as nat, MAX_EXPONENT as nat) as u32);
        if power < MAX_SEGMENT_LENGTH {
            power
        } else {
            MAX_SEGMENT_LENGTH
        }
    } else if arity == 4 {
        1u32 << (exponent4(size as nat, MAX_EXPONENT as nat) as u32)
    } else {
        65536
    }
}

/// Powers of 333.
proof fn lemma_powers_of_333()
    ensures
        power(333, 3) == 36926037int,
        power(333, 7) == 454056225438947877int,
        power(333, 11) == 5583243494552763872208758517int,
        power(333, 15) == 68653629601334930846748814944694773957int,
        power(333, 19) == 844190453458781905644549527427866074888658530197int,
        power(333, 23) == 10380478437182097621379461184478587871623664130217873083237int,
        power(333, 27) == 127642206972746408064055101587794013764623781692083333844460209409077int,
        power(333, 31) == 1569535845526618187978202218072790286716785348929316666943755349243219370803717int,
        power(333, 35) == 19299593988679148502153964749246628299241359897102078590217835052719312481643119635283157int,
        power(333, 39) == 237314954729744291633437616715116447328110164654405613084164107867131224342801313597148156165983397int,
        power(333, 43) == 2918112566068286283560570921380731394984333577674856402623924811070834998421214802515786337719271392649560437int,
        power(333, 47) == 35882192750739227116505594483481649866558287664484852457161655571386947703274707554420991257108531582320392511222590277int,
        power(333, 51) == 441220729992591183125877801237145084167260938854151945508306505467226760545326228482136769233309828024735642788068118506845968917int,
        power(333, 55) == 5425413489290852774075319802205167895725354408388789730372749372798431376546523211170611447863296893920973411850058505333891607509487312357int,
        power(333, 59) == 66712893408869093387920280634419216865819270714518427469665067654849996293921843489575922274929082791621342780903169107101284958010640513592671356597int,
        power(333, 63) == 820326442540854438109400278707063509340922719763868855345580665721554566135540548978828443537640776018644506841265334183404310698645771213541121152366158357637int,
        power(333, 67) == 10087037721590874342749560938202663989321828402059037121007640296489945617011092469755312930466870284595068856572616513338959536818290636042343195451020548553633710491477int,
        power(333, 71) == 124033951266577488172626082656296152561432391680533599344595633756002607759919230172885820050260360441251628190910927475935682661552335746983281767840231282396041034392504106254117int,
{
    assert(power(333, 0) == 1);
    assert(power(333, 1) == 333int);
    assert(power(333, 2) == 110889int);
    assert(power(333, 3) == 36926037int);
    assert(power(333, 4) == 12296370321int);
    assert(power(333, 5) == 4094691316893int);
    assert(power(333, 6) == 1363532208525369int);
    assert(power(333, 7) == 454056225438947877int);
    assert(power(333, 8) == 151200723071169643041int);
    assert(power(333, 9) == 50349840782699491132653int);
    assert(power(333, 10) == 16766496980638930547173449int);
    assert(power(333, 11) == 5583243494552763872208758517int);
    assert(power(333, 12) == 1859220083686070369445516586161int);
    assert(power(333, 13) == 619120287867461433025357023191613int);
    assert(power(333, 14) == 206167055859864657197443888722807129int);
    assert(power(333, 15) == 68653629601334930846748814944694773957int);
    assert(power(333, 16) == 22861658657244531971967355376583359727681int);
    assert(power(333, 17) == 7612932332862429146665129340402258789317773int);
    assert(power(333, 18) == 2535106466843188905839488070353952176842818409int);
    assert(power(333, 19) == 844190453458781905644549527427866074888658530197int);
    assert(power(333, 20) == 281115421001774374579634992633479402937923290555601int);
    assert(power(333, 21) == 93611435193590866735018452546948641178328455755015133int);
    assert(power(333, 22) == 31172607919465758622761144698133897512383375766420039289int);
    assert(power(333, 23) == 10380478437182097621379461184478587871623664130217873083237int);
    assert(power(333, 24) == 3456699319581638507919360574431369761250680155362551736717921int);
    assert(power(333, 25) == 1151080873420685623137147071285646130496476491735729728327067693int);
    assert(power(333, 26) == 383309930849088312504669974738120161455326671747997999532913541769int);
    assert(power(333, 27) == 127642206972746408064055101587794013764623781692083333844460209409077int);
    assert(power(333, 28) == 42504854921924553885330348828735406583619719303463750170205249733222641int);
    assert(power(333, 29) == 14154116689000876443815006159968890392345366528053428806678348161163139453int);
    assert(power(333, 30) == 4713320857437291855790397051269640500651007053841791792623889937667325437849int);
    assert(power(333, 31) == 1569535845526618187978202218072790286716785348929316666943755349243219370803717int);
    assert(power(333, 32) == 522655436560363856596741338618239165476689521193462450092270531297992050477637761int);
    assert(power(333, 33) == 174044260374601164246714865759873642103737610557422995880726086922231352809053374413int);
    assert(power(333, 34) == 57956738704742187694156050298037922820544624315621857628281786945103040485414773679529int);
    assert(power(333, 35) == 19299593988679148502153964749246628299241359897102078590217835052719312481643119635283157int);
    assert(power(333, 36) == 6426764798230156451217270261499127223647372845734992170542539072555531056387158838549291281int);
    assert(power(333, 37) == 2140112677810642098255350997079209365474575157629752392790665511160991841776923893236913996573int);
    assert(power(333, 38) == 712657521710943818719031882027376718703033527490707546799291615216610283311715656447892360858809int);
    assert(power(333, 39) == 237314954729744291633437616715116447328110164654405613084164107867131224342801313597148156165983397int);
    assert(power(333, 40) == 79025879925004849113934726366133776960260684829917069157026647919754697706152837427850336003272471201int);
    assert(power(333, 41) == 26315618015026614754940263879922547727766808048362384029289873757278314336148894863474161889089732909933int);
    assert(power(333, 42) == 8763100799003862713395107872014208393346347080104673881753527961173678673937581989536895909066881059007689int);
    assert(power(333, 43) == 2918112566068286283560570921380731394984333577674856402623924811070834998421214802515786337719271392649560437int);
    assert(power(333, 44) == 971731484500739332425670116819783554529783081365727182073766962086588054474264529237756850460517373752303625521int);
    assert(power(333, 45) == 323586584338746197697748148900987923658417766094787151630564398374833822139930088236173031203352285459517107298493int);
    assert(power(333, 46) == 107754332584802483833350133584028978578253116109564121492977944658819662772596719382645619390716311058019196730398169int);
    assert(power(333, 47) == 35882192750739227116505594483481649866558287664484852457161655571386947703274707554420991257108531582320392511222590277int);
    assert(power(333, 48) == 11948770185996162629796362962999389405563909792273455868234831305271853585190477615622190088617141016912690706237122562241int);
    assert(power(333, 49) == 3978940471936722155722188866678796672052781960827060804122198824655527243868429046002189299509507958631926005176961813226253int);
    assert(power(333, 50) == 1324987177154928477855488892604039291793576392955411247772692208610290572208186872318729036736666150224431359723928283804342249int);
    assert(power(333, 51) == 441220729992591183125877801237145084167260938854151945508306505467226760545326228482136769233309828024735642788068118506845968917int);
    assert(power(333, 52) == 146926503087532863980917307811969313027697892638432597854266066320586511261593634084551544154692172732236969048426683462779707649361int);
    assert(power(333, 53) == 48926525528148443705645463501385781238223398248598055085470600084755308250110680150155664203512493519834910693126085593105642647237213int);
    assert(power(333, 54) == 16292533000873431753979939345961465152328391616783152343461709828223517647286856490001836179769660342105025260810986502504179001529991929int);
    assert(power(333, 55) == 5425413489290852774075319802205167895725354408388789730372749372798431376546523211170611447863296893920973411850058505333891607509487312357int);
    assert(power(333, 56) == 1806662691933853973767081494134320909276543017993466980214125541141877648389992229319813612138477865675684146146069482276185905300659275014881int);
    assert(power(333, 57) == 601618676413973373264438137546728862789088824991824504411303805200245256913867412363497932842113129270002820666641137597969906465119538579955373int);
    assert(power(333, 58) == 200339019245853133297057899803060711308766578722277559968964167131681670552317848317044811636423672046910939281991498820123978852884806347125139209int);
    assert(power(333, 59) == 66712893408869093387920280634419216865819270714518427469665067654849996293921843489575922274929082791621342780903169107101284958010640513592671356597int);
    assert(power(333, 60) == 22215393505153408098177453451261599216317817147934636347398467529065048765875973882028782117551384569609907146040755312664727891017543291026359561746801int);
    assert(power(333, 61) == 7397726037216084896693091999270112539033833110262233903683689687178661239036699302715584445144611061680099079631571519117354387708841915911777734061684733int);
    assert(power(333, 62) == 2463442770392956270598799635756947475498266425717323889926668665830494192599220867804289620233155483539472993517313315866079011107044357998621985442541016089int);
    assert(power(333, 63) == 820326442540854438109400278707063509340922719763868855345580665721554566135540548978828443537640776018644506841265334183404310698645771213541121152366158357637int);
    assert(power(333, 64) == 273168705366104527890430292809452148610527265681368328830078361685277670523135002809949871698034378414208620778141356283073635462649041814109193343737930733093121int);
    assert(power(333, 65) == 90965178886912807787513287505547565487305579471895653500416094441197464284203955935713307275445448011931470719121071642263520609062130924098361383464730934120009293int);
    assert(power(333, 66) == 30291404569341964993241924739347339307272757964141252615638559448918755606639917326592531322723334187973179749467316856873752362817689597724754340693755401061963094569int);
    assert(power(333, 67) == 10087037721590874342749560938202663989321828402059037121007640296489945617011092469755312930466870284595068856572616513338959536818290636042343195451020548553633710491477int);
    assert(power(333, 68) == 3358983561289761156135603792421487108444168857885659361295544218731151890464693792428519205845467804770157929238681298941873525760490781802100284085189842668360025593661841int);
    assert(power(333, 69) == 1118541525909490464993156062876355207111908229675924567311416224837473579524743032878696895546540778988462590436480872547643884078243430340099394600368217608563888522689393053int);
    assert(power(333, 70) == 372474328127860324842720968937826283968265440482082880914701602870878701981739429948606066216998079403158042615348130558365413398055062303253098401922616463651774878055567886649int);
    assert(power(333, 71) == 124033951266577488172626082656296152561432391680533599344595633756002607759919230172885820050260360441251628190910927475935682661552335746983281767840231282396041034392504106254117int);
}

/// Powers of 291.
proof fn lemma_powers_of_291()
    ensures
        power(291, 1) == 291int,
        power(291, 3) == 24642171int,
        power(291, 5) == 2086723682451int,
        power(291, 7) == 176705848153633131int,
        power(291, 9) == 14963627927497807166211int,
        power(291, 11) == 1267134976528441808641913691int,
        power(291, 13) == 107302256947404980797605893267571int,
        power(291, 15) == 9086462420563201178922064647791179851int,
        power(291, 17) == 769450724235712439032299356439604900962531int,
        power(291, 19) == 65157856779004365049694141802662182618408087611int,
        power(291, 21) == 5517632469902868636773149621991236286309415266987091int,
        power(291, 23) == 467238635183844819030587083139839879960967594223733852971int,
        power(291, 25) == 39566234866003163120329144787364780874974696846460006403437251int,
        power(291, 27) == 3350508334688013856192592309738837009273732303655079802249469851931int,
        power(291, 29) == 283724396289715701356244909380994456782308925205815812734287356531369011int,
        power(291, 31) == 24026065602209415306548175171291991594782702095353688838152187638432859220491int,
        power(291, 33) == 2034551261260695497573806021680177140237793996136645724503565401410132951650398371int,
        power(291, 35) == 172287835354816955430047467721899080412476633386847296596686421756811468478707384454651int,
        power(291, 37) == 14589506185681254602771849614158136028408933791831615923104002880788551962245420023004301331int,
        power(291, 39) == 1235453973309674321017322997176525117021696922426093067984370067948055368714904412968027241010411int,
        power(291, 41) == 104619477913836531178067928723905323434514317087963987089984441723909276678146820594545514796002613891int,
{
    assert(power(291, 0) == 1);
    assert(power(291, 1) == 291int);
    assert(power(291, 2) == 84681int);
    assert(power(291, 3) == 24642171int);
    assert(power(291, 4) == 7170871761int);
    assert(power(291, 5) == 2086723682451int);
    assert(power(291, 6) == 607236591593241int);
    assert(power(291, 7) == 176705848153633131int);
    assert(power(291, 8) == 51421401812707241121int);
    assert(power(291, 9) == 14963627927497807166211int);
    assert(power(291, 10) == 4354415726901861885367401int);
    assert(power(291, 11) == 1267134976528441808641913691int);
    assert(power(291, 12) == 368736278169776566314796884081int);
    assert(power(291, 13) == 107302256947404980797605893267571int);
    assert(power(291, 14) == 31224956771694849412103314940863161int);
    assert(power(291, 15) == 9086462420563201178922064647791179851int);
    assert(power(291, 16) == 2644160564383891543066320812507233336641int);
    assert(power(291, 17) == 769450724235712439032299356439604900962531int);
    assert(power(291, 18) == 223910160752592319758399112723925026180096521int);
    assert(power(291, 19) == 65157856779004365049694141802662182618408087611int);
    assert(power(291, 20) == 18960936322690270229460995264574695141956753494801int);
    assert(power(291, 21) == 5517632469902868636773149621991236286309415266987091int);
    assert(power(291, 22) == 1605631048741734773300986539999449759316039842693243481int);
    assert(power(291, 23) == 467238635183844819030587083139839879960967594223733852971int);
    assert(power(291, 24) == 135966442838498842337900841193693405068641569919106551214561int);
    assert(power(291, 25) == 39566234866003163120329144787364780874974696846460006403437251int);
    assert(power(291, 26) == 11513774346006920468015781133123151234617636782319861863400240041int);
    assert(power(291, 27) == 3350508334688013856192592309738837009273732303655079802249469851931int);
    assert(power(291, 28) == 974997925394212032152044362134001569698656100363628222454595726911921int);
    assert(power(291, 29) == 283724396289715701356244909380994456782308925205815812734287356531369011int);
    assert(power(291, 30) == 82563799320307269094667268629869386923651897234892401505677620750628382201int);
    assert(power(291, 31) == 24026065602209415306548175171291991594782702095353688838152187638432859220491int);
    assert(power(291, 32) == 6991585090242939854205518974845969554081766309747923451902286602783962033162881int);
    assert(power(291, 33) == 2034551261260695497573806021680177140237793996136645724503565401410132951650398371int);
    assert(power(291, 34) == 592054417026862389793977552308931547809198052875763905830537531810348688930265925961int);
    assert(power(291, 35) == 172287835354816955430047467721899080412476633386847296596686421756811468478707384454651int);
    assert(power(291, 36) == 50135760088251734030143813107072632400030700315572563309635748731232137327303848876303441int);
    assert(power(291, 37) == 14589506185681254602771849614158136028408933791831615923104002880788551962245420023004301331int);
    assert(power(291, 38) == 4245546300033245089406608237720017584266999733423000233623264838309468621013417226694251687321int);
    assert(power(291, 39) == 1235453973309674321017322997176525117021696922426093067984370067948055368714904412968027241010411int);
    assert(power(291, 40) == 359517106233115227416040992178368809053313804425993082783451689772884112296037184173695927134029601int);
    assert(power(291, 41) == 104619477913836531178067928723905323434514317087963987089984441723909276678146820594545514796002613891int);
}

/// Powers of 100.
proof fn lemma_powers_of_100()
    ensures
        power(100, 1) == 100int,
        power(100, 3) == 1000000int,
        power(100, 5) == 10000000000int,
        power(100, 7) == 100000000000000int,
        power(100, 9) == 1000000000000000000int,
        power(100, 11) == 10000000000000000000000int,
        power(100, 13) == 100000000000000000000000000int,
        power(100, 15) == 1000000000000000000000000000000int,
        power(100, 17) == 10000000000000000000000000000000000int,
        power(100, 19) == 100000000000000000000000000000000000000int,
        power(100, 21) == 1000000000000000000000000000000000000000000int,
        power(100, 23) == 10000000000000000000000000000000000000000000000int,
        power(100, 25) == 100000000000000000000000000000000000000000000000000int,
        power(100, 27) == 1000000000000000000000000000000000000000000000000000000int,
        power(100, 29) == 10000000000000000000000000000000000000000000000000000000000int,
        power(100, 31) == 100000000000000000000000000000000000000000000000000000000000000int,
        power(100, 33) == 1000000000000000000000000000000000000000000000000000000000000000000int,
        power(100, 35) == 10000000000000000000000000000000000000000000000000000000000000000000000int,
        power(100, 37) == 100000000000000000000000000000000000000000000000000000000000000000000000000int,
        power(100, 39) == 1000000000000000000000000000000000000000000000000000000000000000000000000000000int,
        power(100, 41) == 10000000000000000000000000000000000000000000000000000000000000000000000000000000000int,
        power(100, 43) == 100000000000000000000000000000000000000000000000000000000000000000000000000000000000000int,
        power(100, 47) == 10000000000000000000000000000000000000000000000000000000000000000000000000000000000000000000000int,
        power(100, 51) == 1000000000000000000000000000000000000000000000000000000000000000000000000000000000000000000000000000000int,
        power(100, 55) == 100000000000000000000000000000000000000000000000000000000000000000000000000000000000000000000000000000000000000int,
        power(100, 59) == 10000000000000000000000000000000000000000000000000000000000000000000000000000000000000000000000000000000000000000000000int,
        power(100, 63) == 1000000000000000000000000000000000000000000000000000000000000000000000000000000000000000000000000000000000000000000000000000000int,
        power(100, 67) == 100000000000000000000000000000000000000000000000000000000000000000000000000000000000000000000000000000000000000000000000000000000000000int,
        power(100, 71) == 10000000000000000000000000000000000000000000000000000000000000000000000000000000000000000000000000000000000000000000000000000000000000000000000int,
{
    assert(power(100, 0) == 1);
    assert(power(100, 1) == 100int);
    assert(power(100, 2) == 10000int);
    assert(power(100, 3) == 1000000int);
    assert(power(100, 4) == 100000000int);
    assert(power(100, 5) == 10000000000int);
    assert(power(100, 6) == 1000000000000int);
    assert(power(100, 7) == 100000000000000int);
    assert(power(100, 8) == 10000000000000000int);
    assert(power(100, 9) == 1000000000000000000int);
    assert(power(100, 10) == 100000000000000000000int);
    assert(power(100, 11) == 10000000000000000000000int);
    assert(power(100, 12) == 1000000000000000000000000int);
    assert(power(100, 13) == 100000000000000000000000000int);
    assert(power(100, 14) == 10000000000000000000000000000int);
    assert(power(100, 15) == 1000000000000000000000000000000int);
    assert(power(100, 16) == 100000000000000000000000000000000int);
    assert(power(100, 17) == 10000000000000000000000000000000000int);
    assert(power(100, 18) == 1000000000000000000000000000000000000int);
    assert(power(100, 19) == 100000000000000000000000000000000000000int);
    assert(power(100, 20) == 10000000000000000000000000000000000000000int);
    assert(power(100, 21) == 1000000000000000000000000000000000000000000int);
    assert(power(100, 22) == 100000000000000000000000000000000000000000000int);
    assert(power(100, 23) == 10000000000000000000000000000000000000000000000int);
    assert(power(100, 24) == 1000000000000000000000000000000000000000000000000int);
    assert(power(100, 25) == 100000000000000000000000000000000000000000000000000int);
    assert(power(100, 26) == 10000000000000000000000000000000000000000000000000000int);
    assert(power(100, 27) == 1000000000000000000000000000000000000000000000000000000int);
    assert(power(100, 28) == 100000000000000000000000000000000000000000000000000000000int);
    assert(power(100, 29) == 10000000000000000000000000000000000000000000000000000000000int);
    assert(power(100, 30) == 1000000000000000000000000000000000000000000000000000000000000int);
    assert(power(100, 31) == 100000000000000000000000000000000000000000000000000000000000000int);
    assert(power(100, 32) == 10000000000000000000000000000000000000000000000000000000000000000int);
    assert(power(100, 33) == 1000000000000000000000000000000000000000000000000000000000000000000int);
    assert(power(100, 34) == 100000000000000000000000000000000000000000000000000000000000000000000int);
    assert(power(100, 35) == 10000000000000000000000000000000000000000000000000000000000000000000000int);
    assert(power(100, 36) == 1000000000000000000000000000000000000000000000000000000000000000000000000int);
    assert(power(100, 37) == 100000000000000000000000000000000000000000000000000000000000000000000000000int);
    assert(power(100, 38) == 10000000000000000000000000000000000000000000000000000000000000000000000000000int);
    assert(power(100, 39) == 1000000000000000000000000000000000000000000000000000000000000000000000000000000int);
    assert(power(100, 40) == 100000000000000000000000000000000000000000000000000000000000000000000000000000000int);
    assert(power(100, 41) == 10000000000000000000000000000000000000000000000000000000000000000000000000000000000int);
    assert(power(100, 42) == 1000000000000000000000000000000000000000000000000000000000000000000000000000000000000int);
    assert(power(100, 43) == 100000000000000000000000000000000000000000000000000000000000000000000000000000000000000int);
    assert(power(100, 44) == 10000000000000000000000000000000000000000000000000000000000000000000000000000000000000000int);
    assert(power(100, 45) == 1000000000000000000000000000000000000000000000000000000000000000000000000000000000000000000int);
    assert(power(100, 46) == 100000000000000000000000000000000000000000000000000000000000000000000000000000000000000000000int);
    assert(power(100, 47) == 10000000000000000000000000000000000000000000000000000000000000000000000000000000000000000000000int);
    assert(power(100, 48) == 1000000000000000000000000000000000000000000000000000000000000000000000000000000000000000000000000int);
    assert(power(100, 49) == 100000000000000000000000000000000000000000000000000000000000000000000000000000000000000000000000000int);
    assert(power(100, 50) == 10000000000000000000000000000000000000000000000000000000000000000000000000000000000000000000000000000int);
    assert(power(100, 51) == 1000000000000000000000000000000000000000000000000000000000000000000000000000000000000000000000000000000int);
    assert(power(100, 52) == 100000000000000000000000000000000000000000000000000000000000000000000000000000000000000000000000000000000int);
    assert(power(100, 53) == 10000000000000000000000000000000000000000000000000000000000000000000000000000000000000000000000000000000000int);
    assert(power(100, 54) == 1000000000000000000000000000000000000000000000000000000000000000000000000000000000000000000000000000000000000int);
    assert(power(100, 55) == 100000000000000000000000000000000000000000000000000000000000000000000000000000000000000000000000000000000000000int);
    assert(power(100, 56) == 10000000000000000000000000000000000000000000000000000000000000000000000000000000000000000000000000000000000000000int);
    assert(power(100, 57) == 1000000000000000000000000000000000000000000000000000000000000000000000000000000000000000000000000000000000000000000int);
    assert(power(100, 58) == 100000000000000000000000000000000000000000000000000000000000000000000000000000000000000000000000000000000000000000000int);
    assert(power(100, 59) == 10000000000000000000000000000000000000000000000000000000000000000000000000000000000000000000000000000000000000000000000int);
    assert(power(100, 60) == 1000000000000000000000000000000000000000000000000000000000000000000000000000000000000000000000000000000000000000000000000int);
    assert(power(100, 61) == 100000000000000000000000000000000000000000000000000000000000000000000000000000000000000000000000000000000000000000000000000int);
    assert(power(100, 62) == 10000000000000000000000000000000000000000000000000000000000000000000000000000000000000000000000000000000000000000000000000000int);
    assert(power(100, 63) == 1000000000000000000000000000000000000000000000000000000000000000000000000000000000000000000000000000000000000000000000000000000int);
    assert(power(100, 64) == 100000000000000000000000000000000000000000000000000000000000000000000000000000000000000000000000000000000000000000000000000000000int);
    assert(power(100, 65) == 10000000000000000000000000000000000000000000000000000000000000000000000000000000000000000000000000000000000000000000000000000000000int);
    assert(power(100, 66) == 1000000000000000000000000000000000000000000000000000000000000000000000000000000000000000000000000000000000000000000000000000000000000int);
    assert(power(100, 67) == 100000000000000000000000000000000000000000000000000000000000000000000000000000000000000000000000000000000000000000000000000000000000000int);
    assert(power(100, 68) == 10000000000000000000000000000000000000000000000000000000000000000000000000000000000000000000000000000000000000000000000000000000000000000int);
    assert(power(100, 69) == 1000000000000000000000000000000000000000000000000000000000000000000000000000000000000000000000000000000000000000000000000000000000000000000int);
    assert(power(100, 70) == 100000000000000000000000000000000000000000000000000000000000000000000000000000000000000000000000000000000000000000000000000000000000000000000int);
    assert(power(100, 71) == 10000000000000000000000000000000000000000000000000000000000000000000000000000000000000000000000000000000000000000000000000000000000000000000000int);
}

/// Fourth powers grow with their base.
proof fn lemma_fourth_power(a: nat, b: nat)
    requires
        a <= b,
    ensures
        a * a * a * a <= b * b * b * b,
{
    assert(a * a <= b * b) by (nonlinear_arith)
        requires
            a <= b,
    ;
    let x = a * a;
    let y = b * b;
    assert(x * x <= y * y) by (nonlinear_arith)
        requires
            x <= y,
    ;
    assert(a * a * a * a == x * x) by (nonlinear_arith)
        requires
            x == a * a,
    ;
    assert(b * b * b * b == y * y) by (nonlinear_arith)
        requires
            y == b * b,
    ;
}

/// Squares grow with their base.
proof fn lemma_square(a: nat, b: nat)
    requires
        a <= b,
    ensures
        a * a <= b * b,
{
    assert(a * a <= b * b) by (nonlinear_arith)
        requires
            a <= b,
    ;
}

/// `log(size) / log(3.33) + 2.25` is 3 or more from 3 keys on.
proof fn lemma_reaches3_3(size: nat)
    ensures
        reaches3(size, 3) == (size >= 3),
{
    lemma_powers_of_333();
    lemma_powers_of_100();
    if size >= 3 {
        lemma_fourth_power(3, size);
        assert(3int * 3 * 3 * 3 == 81int);
    } else {
        lemma_fourth_power(size, 2);
        assert(2int * 2 * 2 * 2 == 16int);
    }
}

/// `log(size) / log(3.33) + 2.25` is 4 or more from 9 keys on.
proof fn lemma_reaches3_4(size: nat)
    ensures
        reaches3(size, 4) == (size >= 9),
{
    lemma_powers_of_333();
    lemma_powers_of_100();
    if size >= 9 {
        lemma_fourth_power(9, size);
        assert(9int * 9 * 9 * 9 == 6561int);
    } else {
        lemma_fourth_power(size, 8);
        assert(8int * 8 * 8 * 8 == 4096int);
    }
}

/// `log(size) / log(3.33) + 2.25` is 5 or more from 28 keys on.
proof fn lemma_reaches3_5(size: nat)
    ensures
        reaches3(size, 5) == (size >= 28),
{
    lemma_powers_of_333();
    lemma_powers_of_100();
    if size >= 28 {
        lemma_fourth_power(28, size);
        assert(28int * 28 * 28 * 28 == 614656int);
    } else {
        lemma_fourth_power(size, 27);
        assert(27int * 27 * 27 * 27 == 531441int);
    }
}

/// `log(size) / log(3.33) + 2.25` is 6 or more from 92 keys on.
proof fn lemma_reaches3_6(size: nat)
    ensures
        reaches3(size, 6) == (size >= 92),
{
    lemma_powers_of_333();
    lemma_powers_of_100();
    if size >= 92 {
        lemma_fourth_power(92, size);
        assert(92int * 92 * 92 * 92 == 71639296int);
    } else {
        lemma_fourth_power(size, 91);
        assert(91int * 91 * 91 * 91 == 68574961int);
    }
}

/// `log(size) / log(3.33) + 2.25` is 7 or more from 304 keys on.
proof fn lemma_reaches3_7(size: nat)
    ensures
        reaches3(size, 7) == (size >= 304),
{
    lemma_powers_of_333();
    lemma_powers_of_100();
    if size >= 304 {
        lemma_fourth_power(304, size);
        assert(304int * 304 * 304 * 304 == 8540717056int);
    } else {
        lemma_fourth_power(size, 303);
        assert(303int * 303 * 303 * 303 == 8428892481int);
    }
}

/// `log(size) / log(3.33) + 2.25` is 8 or more from 1010 keys on.
proof fn lemma_reaches3_8(size: nat)
    ensures
        reaches3(size, 8) == (size >= 1010),
{
    lemma_powers_of_333();
    lemma_powers_of_100();
    if size >= 1010 {
        lemma_fourth_power(1010, size);
        assert(1010int * 1010 * 1010 * 1010 == 1040604010000int);
    } else {
        lemma_fourth_power(size, 1009);
        assert(1009int * 1009 * 1009 * 1009 == 1036488922561int);
    }
}

/// `log(size) / log(3.33) + 2.25` is 9 or more from 3362 keys on.
proof fn lemma_reaches3_9(size: nat)
    ensures
        reaches3(size, 9) == (size >= 3362),
{
    lemma_powers_of_333();
    lemma_powers_of_100();
    if size >= 3362 {
        lemma_fourth_power(3362, size);
        assert(3362int * 3362 * 3362 * 3362 == 127758803665936int);
    } else {
        lemma_fourth_power(size, 3361);
        assert(3361int * 3361 * 3361 * 3361 == 127606868135041int);
    }
}

/// `log(size) / log(3.33) + 2.25` is 10 or more from 11193 keys on.
proof fn lemma_reaches3_10(size: nat)
    ensures
        reaches3(size, 10) == (size >= 11193),
{
    lemma_powers_of_333();
    lemma_powers_of_100();
    if size >= 11193 {
        lemma_fourth_power(11193, size);
        assert(11193int * 11193 * 11193 * 11193 == 15695892479996001int);
    } else {
        lemma_fourth_power(size, 11192);
        assert(11192int * 11192 * 11192 * 11192 == 15690284050026496int);
    }
}

/// `log(size) / log(3.33) + 2.25` is 11 or more from 37273 keys on.
proof fn lemma_reaches3_11(size: nat)
    ensures
        reaches3(size, 11) == (size >= 37273),
{
    lemma_powers_of_333();
    lemma_powers_of_100();
    if size >= 37273 {
        lemma_fourth_power(37273, size);
        assert(37273int * 37273 * 37273 * 37273 == 1930089274030287841int);
    } else {
        lemma_fourth_power(size, 37272);
        assert(37272int * 37272 * 37272 * 37272 == 1929882152349536256int);
    }
}

/// `log(size) / log(3.33) + 2.25` is 12 or more from 124118 keys on.
proof fn lemma_reaches3_12(size: nat)
    ensures
        reaches3(size, 12) == (size >= 124118),
{
    lemma_powers_of_333();
    lemma_powers_of_100();
    if size >= 124118 {
        lemma_fourth_power(124118, size);
        assert(124118int * 124118 * 124118 * 124118 == 237322587915681749776int);
    } else {
        lemma_fourth_power(size, 124117);
        assert(124117int * 124117 * 124117 * 124117 == 237314939718971436721int);
    }
}

/// `log(size) / log(3.33) + 2.25` is 13 or more from 413310 keys on.
proof fn lemma_reaches3_13(size: nat)
    ensures
        reaches3(size, 13) == (size >= 413310),
{
    lemma_powers_of_333();
    lemma_powers_of_100();
    if size >= 413310 {
        lemma_fourth_power(413310, size);
        assert(413310int * 413310 * 413310 * 413310 == 29181233956589367210000int);
    } else {
        lemma_fourth_power(size, 413309);
        assert(413309int * 413309 * 413309 * 413309 == 29180951542633245729361int);
    }
}

/// `log(size) / log(3.33) + 2.25` is 14 or more from 1376322 keys on.
proof fn lemma_reaches3_14(size: nat)
    ensures
        reaches3(size, 14) == (size >= 1376322),
{
    lemma_powers_of_333();
    lemma_powers_of_100();
    if size >= 1376322 {
        lemma_fourth_power(1376322, size);
        assert(1376322int * 1376322 * 1376322 * 1376322 == 3588229463000839763363856int);
    } else {
        lemma_fourth_power(size, 1376321);
        assert(1376321int * 1376321 * 1376321 * 1376321 == 3588219034552984303591681int);
    }
}

/// `log(size) / log(3.33) + 2.25` is 15 or more from 4583150 keys on.
proof fn lemma_reaches3_15(size: nat)
    ensures
        reaches3(size, 15) == (size >= 4583150),
{
    lemma_powers_of_333();
    lemma_powers_of_100();
    if size >= 4583150 {
        lemma_fourth_power(4583150, size);
        assert(4583150int * 4583150 * 4583150 * 4583150 == 441221112453880086006250000int);
    } else {
        lemma_fourth_power(size, 4583149);
        assert(4583149int * 4583149 * 4583149 * 4583149 == 441220727372904731947952401int);
    }
}

/// `log(size) / log(3.33) + 2.25` is 16 or more from 15261887 keys on.
proof fn lemma_reaches3_16(size: nat)
    ensures
        reaches3(size, 16) == (size >= 15261887),
{
    lemma_powers_of_333();
    lemma_powers_of_100();
    if size >= 15261887 {
        lemma_fourth_power(15261887, size);
        assert(15261887int * 15261887 * 15261887 * 15261887 == 54254146372976185989602991361int);
    } else {
        lemma_fourth_power(size, 15261886);
        assert(15261886int * 15261886 * 15261886 * 15261886 == 54254132153465573531414784016int);
    }
}

/// `log(size) / log(3.33) + 2.25` is 17 or more from 50822082 keys on.
proof fn lemma_reaches3_17(size: nat)
    ensures
        reaches3(size, 17) == (size >= 50822082),
{
    lemma_powers_of_333();
    lemma_powers_of_100();
    if size >= 50822082 {
        lemma_fourth_power(50822082, size);
        assert(50822082int * 50822082 * 50822082 * 50822082 == 6671289854648499522025839196176int);
    } else {
        lemma_fourth_power(size, 50822081);
        assert(50822081int * 50822081 * 50822081 * 50822081 == 6671289329578341416563965054721int);
    }
}

/// `log(size) / log(3.33) + 2.25` is 18 or more from 169237530 keys on.
proof fn lemma_reaches3_18(size: nat)
    ensures
        reaches3(size, 18) == (size >= 169237530),
{
    lemma_powers_of_333();
    lemma_powers_of_100();
    if size >= 169237530 {
        lemma_fourth_power(169237530, size);
        assert(169237530int * 169237530 * 169237530 * 169237530 == 820326446385276129575058900810000int);
    } else {
        lemma_fourth_power(size, 169237529);
        assert(169237529int * 169237529 * 169237529 * 169237529 == 820326426996516695081036071757281int);
    }
}

/// `log(size) / log(3.33) + 2.25` is 19 or more from 563560975 keys on.
proof fn lemma_reaches3_19(size: nat)
    ensures
        reaches3(size, 19) == (size >= 563560975),
{
    lemma_powers_of_333();
    lemma_powers_of_100();
    if size >= 563560975 {
        lemma_fourth_power(563560975, size);
        assert(563560975int * 563560975 * 563560975 * 563560975 == 100870377760228076790810381187890625int);
    } else {
        lemma_fourth_power(size, 563560974);
        assert(563560974int * 563560974 * 563560974 * 563560974 == 100870377044278023707402279783912976int);
    }
}

/// `log(size) / log(3.33) + 2.25` is 20 or more from 1876658045 keys on.
proof fn lemma_reaches3_20(size: nat)
    ensures
        reaches3(size, 20) == (size >= 1876658045),
{
    lemma_powers_of_333();
    lemma_powers_of_100();
    if size >= 1876658045 {
        lemma_fourth_power(1876658045, size);
        assert(1876658045int * 1876658045 * 1876658045 * 1876658045 == 12403395147324172954944571114445100625int);
    } else {
        lemma_fourth_power(size, 1876658044);
        assert(1876658044int * 1876658044 * 1876658044 * 1876658044 == 12403395120886974829358034322768036096int);
    }
}

/// `log(size) / log(2.91) - 0.5` is 1 or more from 5 keys on.
proof fn lemma_reaches4_1(size: nat)
    ensures
        reaches4(size, 1) == (size >= 5),
{
    lemma_powers_of_291();
    lemma_powers_of_100();
    if size >= 5 {
        lemma_square(5, size);
        assert(5int * 5 == 25int);
    } else {
        lemma_square(size, 4);
        assert(4int * 4 == 16int);
    }
}

/// `log(size) / log(2.91) - 0.5` is 2 or more from 15 keys on.
proof fn lemma_reaches4_2(size: nat)
    ensures
        reaches4(size, 2) == (size >= 15),
{
    lemma_powers_of_291();
    lemma_powers_of_100();
    if size >= 15 {
        lemma_square(15, size);
        assert(15int * 15 == 225int);
    } else {
        lemma_square(size, 14);
        assert(14int * 14 == 196int);
    }
}

/// `log(size) / log(2.91) - 0.5` is 3 or more from 43 keys on.
proof fn lemma_reaches4_3(size: nat)
    ensures
        reaches4(size, 3) == (size >= 43),
{
    lemma_powers_of_291();
    lemma_powers_of_100();
    if size >= 43 {
        lemma_square(43, size);
        assert(43int * 43 == 1849int);
    } else {
        lemma_square(size, 42);
        assert(42int * 42 == 1764int);
    }
}

/// `log(size) / log(2.91) - 0.5` is 4 or more from 123 keys on.
proof fn lemma_reaches4_4(size: nat)
    ensures
        reaches4(size, 4) == (size >= 123),
{
    lemma_powers_of_291();
    lemma_powers_of_100();
    if size >= 123 {
        lemma_square(123, size);
        assert(123int * 123 == 15129int);
    } else {
        lemma_square(size, 122);
        assert(122int * 122 == 14884int);
    }
}

/// `log(size) / log(2.91) - 0.5` is 5 or more from 356 keys on.
proof fn lemma_reaches4_5(size: nat)
    ensures
        reaches4(size, 5) == (size >= 356),
{
    lemma_powers_of_291();
    lemma_powers_of_100();
    if size >= 356 {
        lemma_square(356, size);
        assert(356int * 356 == 126736int);
    } else {
        lemma_square(size, 355);
        assert(355int * 355 == 126025int);
    }
}

/// `log(size) / log(2.91) - 0.5` is 6 or more from 1036 keys on.
proof fn lemma_reaches4_6(size: nat)
    ensures
        reaches4(size, 6) == (size >= 1036),
{
    lemma_powers_of_291();
    lemma_powers_of_100();
    if size >= 1036 {
        lemma_square(1036, size);
        assert(1036int * 1036 == 1073296int);
    } else {
        lemma_square(size, 1035);
        assert(1035int * 1035 == 1071225int);
    }
}

/// `log(size) / log(2.91) - 0.5` is 7 or more from 3015 keys on.
proof fn lemma_reaches4_7(size: nat)
    ensures
        reaches4(size, 7) == (size >= 3015),
{
    lemma_powers_of_291();
    lemma_powers_of_100();
    if size >= 3015 {
        lemma_square(3015, size);
        assert(3015int * 3015 == 9090225int);
    } else {
        lemma_square(size, 3014);
        assert(3014int * 3014 == 9084196int);
    }
}

/// `log(size) / log(2.91) - 0.5` is 8 or more from 8772 keys on.
proof fn lemma_reaches4_8(size: nat)
    ensures
        reaches4(size, 8) == (size >= 8772),
{
    lemma_powers_of_291();
    lemma_powers_of_100();
    if size >= 8772 {
        lemma_square(8772, size);
        assert(8772int * 8772 == 76947984int);
    } else {
        lemma_square(size, 8771);
        assert(8771int * 8771 == 76930441int);
    }
}

/// `log(size) / log(2.91) - 0.5` is 9 or more from 25527 keys on.
proof fn lemma_reaches4_9(size: nat)
    ensures
        reaches4(size, 9) == (size >= 25527),
{
    lemma_powers_of_291();
    lemma_powers_of_100();
    if size >= 25527 {
        lemma_square(25527, size);
        assert(25527int * 25527 == 651627729int);
    } else {
        lemma_square(size, 25526);
        assert(25526int * 25526 == 651576676int);
    }
}

/// `log(size) / log(2.91) - 0.5` is 10 or more from 74281 keys on.
proof fn lemma_reaches4_10(size: nat)
    ensures
        reaches4(size, 10) == (size >= 74281),
{
    lemma_powers_of_291();
    lemma_powers_of_100();
    if size >= 74281 {
        lemma_square(74281, size);
        assert(74281int * 74281 == 5517666961int);
    } else {
        lemma_square(size, 74280);
        assert(74280int * 74280 == 5517518400int);
    }
}

/// `log(size) / log(2.91) - 0.5` is 11 or more from 216158 keys on.
proof fn lemma_reaches4_11(size: nat)
    ensures
        reaches4(size, 11) == (size >= 216158),
{
    lemma_powers_of_291();
    lemma_powers_of_100();
    if size >= 216158 {
        lemma_square(216158, size);
        assert(216158int * 216158 == 46724280964int);
    } else {
        lemma_square(size, 216157);
        assert(216157int * 216157 == 46723848649int);
    }
}

/// `log(size) / log(2.91) - 0.5` is 12 or more from 629017 keys on.
proof fn lemma_reaches4_12(size: nat)
    ensures
        reaches4(size, 12) == (size >= 629017),
{
    lemma_powers_of_291();
    lemma_powers_of_100();
    if size >= 629017 {
        lemma_square(629017, size);
        assert(629017int * 629017 == 395662386289int);
    } else {
        lemma_square(size, 629016);
        assert(629016int * 629016 == 395661128256int);
    }
}

/// `log(size) / log(2.91) - 0.5` is 13 or more from 1830440 keys on.
proof fn lemma_reaches4_13(size: nat)
    ensures
        reaches4(size, 13) == (size >= 1830440),
{
    lemma_powers_of_291();
    lemma_powers_of_100();
    if size >= 1830440 {
        lemma_square(1830440, size);
        assert(1830440int * 1830440 == 3350510593600int);
    } else {
        lemma_square(size, 1830439);
        assert(1830439int * 1830439 == 3350506932721int);
    }
}

/// `log(size) / log(2.91) - 0.5` is 14 or more from 5326579 keys on.
proof fn lemma_reaches4_14(size: nat)
    ensures
        reaches4(size, 14) == (size >= 5326579),
{
    lemma_powers_of_291();
    lemma_powers_of_100();
    if size >= 5326579 {
        lemma_square(5326579, size);
        assert(5326579int * 5326579 == 28372443843241int);
    } else {
        lemma_square(size, 5326578);
        assert(5326578int * 5326578 == 28372433190084int);
    }
}

/// `log(size) / log(2.91) - 0.5` is 15 or more from 15500344 keys on.
proof fn lemma_reaches4_15(size: nat)
    ensures
        reaches4(size, 15) == (size >= 15500344),
{
    lemma_powers_of_291();
    lemma_powers_of_100();
    if size >= 15500344 {
        lemma_square(15500344, size);
        assert(15500344int * 15500344 == 240260664118336int);
    } else {
        lemma_square(size, 15500343);
        assert(15500343int * 15500343 == 240260633117649int);
    }
}

/// `log(size) / log(2.91) - 0.5` is 16 or more from 45106001 keys on.
proof fn lemma_reaches4_16(size: nat)
    ensures
        reaches4(size, 16) == (size >= 45106001),
{
    lemma_powers_of_291();
    lemma_powers_of_100();
    if size >= 45106001 {
        lemma_square(45106001, size);
        assert(45106001int * 45106001 == 2034551326212001int);
    } else {
        lemma_square(size, 45106000);
        assert(45106000int * 45106000 == 2034551236000000int);
    }
}

/// `log(size) / log(2.91) - 0.5` is 17 or more from 131258461 keys on.
proof fn lemma_reaches4_17(size: nat)
    ensures
        reaches4(size, 17) == (size >= 131258461),
{
    lemma_powers_of_291();
    lemma_powers_of_100();
    if size >= 131258461 {
        lemma_square(131258461, size);
        assert(131258461int * 131258461 == 17228783584088521int);
    } else {
        lemma_square(size, 131258460);
        assert(131258460int * 131258460 == 17228783321571600int);
    }
}

/// `log(size) / log(2.91) - 0.5` is 18 or more from 381962121 keys on.
proof fn lemma_reaches4_18(size: nat)
    ensures
        reaches4(size, 18) == (size >= 381962121),
{
    lemma_powers_of_291();
    lemma_powers_of_100();
    if size >= 381962121 {
        lemma_square(381962121, size);
        assert(381962121int * 381962121 == 145895061878818641int);
    } else {
        lemma_square(size, 381962120);
        assert(381962120int * 381962120 == 145895061114894400int);
    }
}

/// `log(size) / log(2.91) - 0.5` is 19 or more from 1111509773 keys on.
proof fn lemma_reaches4_19(size: nat)
    ensures
        reaches4(size, 19) == (size >= 1111509773),
{
    lemma_powers_of_291();
    lemma_powers_of_100();
    if size >= 1111509773 {
        lemma_square(1111509773, size);
        assert(1111509773int * 1111509773 == 1235453975474511529int);
    } else {
        lemma_square(size, 1111509772);
        assert(1111509772int * 1111509772 == 1235453973251491984int);
    }
}

/// `log(size) / log(2.91) - 0.5` is 20 or more from 3234493437 keys on.
proof fn lemma_reaches4_20(size: nat)
    ensures
        reaches4(size, 20) == (size >= 3234493437),
{
    lemma_powers_of_291();
    lemma_powers_of_100();
    if size >= 3234493437 {
        lemma_square(3234493437, size);
        assert(3234493437int * 3234493437 == 10461947793996072969int);
    } else {
        lemma_square(size, 3234493436);
        assert(3234493436int * 3234493436 == 10461947787527086096int);
    }
}

/// The number of keys from which each exponent from 3 to 20 is reached,
/// where a key touches three slots.
proof fn lemma_thresholds3(size: nat)
    ensures
        reaches3(size, 3) == (size >= 3),
        reaches3(size, 4) == (size >= 9),
        reaches3(size, 5) == (size >= 28),
        reaches3(size, 6) == (size >= 92),
        reaches3(size, 7) == (size >= 304),
        reaches3(size, 8) == (size >= 1010),
        reaches3(size, 9) == (size >= 3362),
        reaches3(size, 10) == (size >= 11193),
        reaches3(size, 11) == (size >= 37273),
        reaches3(size, 12) == (size >= 124118),
        reaches3(size, 13) == (size >= 413310),
        reaches3(size, 14) == (size >= 1376322),
        reaches3(size, 15) == (size >= 4583150),
        reaches3(size, 16) == (size >= 15261887),
        reaches3(size, 17) == (size >= 50822082),
        reaches3(size, 18) == (size >= 169237530),
        reaches3(size, 19) == (size >= 563560975),
        reaches3(size, 20) == (size >= 1876658045),
{
    lemma_reaches3_3(size);
    lemma_reaches3_4(size);
    lemma_reaches3_5(size);
    lemma_reaches3_6(size);
    lemma_reaches3_7(size);
    lemma_reaches3_8(size);
    lemma_reaches3_9(size);
    lemma_reaches3_10(size);
    lemma_reaches3_11(size);
    lemma_reaches3_12(size);
    lemma_reaches3_13(size);
    lemma_reaches3_14(size);
    lemma_reaches3_15(size);
    lemma_reaches3_16(size);
    lemma_reaches3_17(size);
    lemma_reaches3_18(size);
    lemma_reaches3_19(size);
    lemma_reaches3_20(size);
}

/// The number of keys from which each exponent from 1 to 20 is reached,
/// where a key touches four slots.
proof fn lemma_thresholds4(size: nat)
    ensures
        reaches4(size, 1) == (size >= 5),
        reaches4(size, 2) == (size >= 15),
        reaches4(size, 3) == (size >= 43),
        reaches4(size, 4) == (size >= 123),
        reaches4(size, 5) == (size >= 356),
        reaches4(size, 6) == (size >= 1036),
        reaches4(size, 7) == (size >= 3015),
        reaches4(size, 8) == (size >= 8772),
        reaches4(size, 9) == (size >= 25527),
        reaches4(size, 10) == (size >= 74281),
        reaches4(size, 11) == (size >= 216158),
        reaches4(size, 12) == (size >= 629017),
        reaches4(size, 13) == (size >= 1830440),
        reaches4(size, 14) == (size >= 5326579),
        reaches4(size, 15) == (size >= 15500344),
        reaches4(size, 16) == (size >= 45106001),
        reaches4(size, 17) == (size >= 131258461),
        reaches4(size, 18) == (size >= 381962121),
        reaches4(size, 19) == (size >= 1111509773),
        reaches4(size, 20) == (size >= 3234493437),
{
    lemma_reaches4_1(size);
    lemma_reaches4_2(size);
    lemma_reaches4_3(size);
    lemma_reaches4_4(size);
    lemma_reaches4_5(size);
    lemma_reaches4_6(size);
    lemma_reaches4_7(size);
    lemma_reaches4_8(size);
    lemma_reaches4_9(size);
    lemma_reaches4_10(size);
    lemma_reaches4_11(size);
    lemma_reaches4_12(size);
    lemma_reaches4_13(size);
    lemma_reaches4_14(size);
    lemma_reaches4_15(size);
    lemma_reaches4_16(size);
    lemma_reaches4_17(size);
    lemma_reaches4_18(size);
    lemma_reaches4_19(size);
    lemma_reaches4_20(size);
}

/// The floor of `log(size) / log(3.33) + 2.25`, for a `size` from 1 on.
fn floor_log3(size: u32) -> (k: u32)
    requires
        size >= 1,
    ensures
        k == exponent3(size as nat, MAX_EXPONENT as nat),
        2 <= k <= MAX_EXPONENT,
{
    proof {
        reveal_with_fuel(exponent3, 20);
        lemma_thresholds3(size as nat);
    }
    if size < 3 {
        2
    } else if size < 9 {
        3
    } else if size < 28 {
        4
    } else if size < 92 {
        5
    } else if size < 304 {
        6
    } else if size < 1010 {
        7
    } else if size < 3362 {
        8
    } else if size < 11193 {
        9
    } else if size < 37273 {
        10
    } else if size < 124118 {
        11
    } else if size < 413310 {
        12
    } else if size < 1376322 {
        13
    } else if size < 4583150 {
        14
    } else if size < 15261887 {
        15
    } else if size < 50822082 {
        16
    } else if size < 169237530 {
        17
    } else if size < 563560975 {
        18
    } else if size < 1876658045 {
        19
    } else {
        20
    }
}

/// The floor of `log(size) / log(2.91) - 0.5`, or 0 where it is negative.
fn floor_log4(size: u32) -> (k: u32)
    requires
        size >= 1,
    ensures
        k == exponent4(size as nat, MAX_EXPONENT as nat),
        k <= MAX_EXPONENT,
{
    proof {
        reveal_with_fuel(exponent4, 21);
        lemma_thresholds4(size as nat);
    }
    if size < 5 {
        0
    } else if size < 15 {
        1
    } else if size < 43 {
        2
    } else if size < 123 {
        3
    } else if size < 356 {
        4
    } else if size < 1036 {
        5
    } else if size < 3015 {
        6
    } else if size < 8772 {
        7
    } else if size < 25527 {
        8
    } else if size < 74281 {
        9
    } else if size < 216158 {
        10
    } else if size < 629017 {
        11
    } else if size < 1830440 {
        12
    } else if size < 5326579 {
        13
    } else if size < 15500344 {
        14
    } else if size < 45106001 {
        15
    } else if size < 131258461 {
        16
    } else if size < 381962121 {
        17
    } else if size < 1111509773 {
        18
    } else if size < 3234493437 {
        19
    } else {
        20
    }
}

/// Two to a power up to the twentieth: the powers on both sides of the
/// longest segment, and those that a million keys or more reach.
proof fn lemma_powers_of_two(k: u32)
    requires
        k <= 20,
    ensures
        k >= 2 ==> (1u32 << k) >= 4,
        k < 18 ==> (1u32 << k) < 262144,
        k >= 18 ==> (1u32 << k) >= 262144,
        k == 2 ==> (1u32 << k) == 4,
        k == 13 ==> (1u32 << k) == 8192,
        k == 14 ==> (1u32 << k) == 16384,
        k == 15 ==> (1u32 << k) == 32768,
        k == 16 ==> (1u32 << k) == 65536,
        k == 17 ==> (1u32 << k) == 131072,
        k == 18 ==> (1u32 << k) == 262144,
{
    assert((k >= 2 ==> (1u32 << k) >= 4) && (k < 18 ==> (1u32 << k) < 262144) && (k >= 18 ==> (1u32
        << k) >= 262144) && (k == 2 ==> (1u32 << k) == 4) && (k == 13 ==> (1u32 << k) == 8192) && (k
        == 14 ==> (1u32 << k) == 16384) && (k == 15 ==> (1u32 << k) == 32768) && (k == 16 ==> (1u32
        << k) == 65536) && (k == 17 ==> (1u32 << k) == 131072) && (k == 18 ==> (1u32 << k)
        == 262144)) by (bit_vector)
        requires
            k <= 20,
    ;
}

/// With a greater exponent the power of two is not smaller.
proof fn lemma_powers_of_two_grow(j: u32, k: u32)
    requires
        j <= k <= 20,
    ensures
        (1u32 << j) <= (1u32 << k),
{
    assert((1u32 << j) <= (1u32 << k)) by (bit_vector)
        requires
            j <= k <= 20,
    ;
}

/// The exponent lies between 2 and the limit.
proof fn lemma_exponent3_range(size: nat, limit: nat)
    requires
        limit >= 2,
    ensures
        2 <= exponent3(size, limit) <= limit,
    decreases limit,
{
    if limit > 2 && !reaches3(size, limit) {
        lemma_exponent3_range(size, (limit - 1) as nat);
    }
}

/// Where a key touches three slots, the segment length is two to a power
/// from the second to the eighteenth: it lies between 4 and
/// `MAX_SEGMENT_LENGTH`.
pub proof fn lemma_segment_length_is_power(size: u32) -> (k: u32)
    ensures
        2 <= k <= 18,
        segment_length_spec(3, size) == (1u32 << k),
        4 <= segment_length_spec(3, size) <= MAX_SEGMENT_LENGTH,
        size > 0 && exponent3(size as nat, MAX_EXPONENT as nat) <= 18 ==> k == exponent3(
            size as nat,
            MAX_EXPONENT as nat,
        ),
        size > 0 && exponent3(size as nat, MAX_EXPONENT as nat) > 18 ==> k == 18,
{
    lemma_powers_of_two(2);
    lemma_powers_of_two(18);
    if size == 0 {
        2
    } else {
        lemma_exponent3_range(size as nat, MAX_EXPONENT as nat);
        let floor = exponent3(size as nat, MAX_EXPONENT as nat) as u32;
        lemma_powers_of_two(floor);
        if floor < 18 {
            floor
        } else {
            18
        }
    }
}

/// Where a key touches three slots, more keys never have shorter segments.
pub proof fn lemma_segment_length_grows(fewer: u32, more: u32)
    requires
        fewer <= more,
    ensures
        segment_length_spec(3, fewer) <= segment_length_spec(3, more),
{
    let j = lemma_segment_length_is_power(fewer);
    let k = lemma_segment_length_is_power(more);
    if fewer > 0 {
        reveal_with_fuel(exponent3, 20);
        lemma_thresholds3(fewer as nat);
        lemma_thresholds3(more as nat);
        assert(exponent3(fewer as nat, MAX_EXPONENT as nat) <= exponent3(
            more as nat,
            MAX_EXPONENT as nat,
        ));
        lemma_powers_of_two_grow(j, k);
    }
}

/// A filter for one key has segments of length four.
pub proof fn lemma_one_key()
    ensures
        segment_length_spec(3, 1) == 4,
{
    reveal_with_fuel(exponent3, 20);
    lemma_thresholds3(1);
    lemma_powers_of_two(2);
}

/// From a million keys on, eighty segments are not more than the keys and
/// forty: the segments are short beside the keys.
pub proof fn lemma_segments_are_short(size: u32)
    requires
        size >= 1_000_000,
    ensures
        segment_length_spec(3, size) >= 8192,
        80 * segment_length_spec(3, size) <= size + 40,
{
    reveal_with_fuel(exponent3, 20);
    lemma_thresholds3(size as nat);
    let k = exponent3(size as nat, MAX_EXPONENT as nat) as u32;
    assert(13 <= k <= 20);
    lemma_powers_of_two(k);
}

/// The length of a segment of a filter for `size` keys of which each
/// touches `arity` slots.
pub fn segment_length(arity: u32, size: u32) -> (r: u32)
    ensures
        r == segment_length_spec(arity, size),
{
    if size == 0 {
        return 4;
    }
    if arity == 3 {
        let power = 1u32 << floor_log3(size);
        if power < MAX_SEGMENT_LENGTH {
            power
        } else {
            MAX_SEGMENT_LENGTH
        }
    } else if arity == 4 {
        1u32 << floor_log4(size)
    } else {
        65536
    }
}

} // verus!
