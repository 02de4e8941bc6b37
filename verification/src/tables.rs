//! Word lists that are loaded beside the built-in dictionary.
//!
//! Every list is a text of lines. The words of a line are separated by blanks:
//! a reading and the surfaces it stands for, best first. In the lists that
//! weigh their lines a frequency comes first.
use vstd::prelude::*;

verus! {

/// Frequencies that replace those of the built-in dictionary: everyday words
/// that rarer words of the same reading would hide, and archaic or slangy
/// spellings that would hide everyday ones. Weighted.
pub const PRIORITY_OVERRIDES: &'static str = "4100 みち 道
5700 うみ 海
5500 め 目
3900 かわ 川
4000 かみ 髪
3800 かみ 神
5000 そら 空
4500 やま 山
4200 みず 水
4400 りょうり 料理
4200 かぎ 鍵
4100 ひと 人
4700 こと 事
4700 じしょ 辞書
4400 つぎ 次
1500 つぎは 継歯
1500 つぎは 継端
4600 とうこう 投稿
5800 おねがい お願い
800 する スる
2800 する する
4200 ところ 所
4400 がき 書き
4200 みる 見る
5800 いのる 祈る
5800 およぐ 泳ぐ
5800 とじる 閉じる
12000 つくる 作る
2850 あう 会う
5800 さがす 探す
5000 さい 再
9500 します します
9500 しました しました
9000 しません しません
9000 しましょう しましょう
2500 きょうは 教派
2500 きょうが 恭賀
2500 かれは 枯れ葉
2500 かれは 枯葉
1500 そらに 空似
1500 そらに そら似
1500 そらで 空手
1500 やまが 山家
2500 これ 之";

/// Symbols. They are rare on purpose: they stay within reach of readings that
/// have no word, and never come before a common word.
pub const SYMBOLS: &'static str = "やじるし → ← ↑ ↓ ⇒ ⇐ ⇑ ⇓ ↔ ↕
みぎ → ⇒
ひだり ← ⇐
うえ ↑ ⇑
した ↓ ⇓
さんかく △ ▲ ▽ ▼
しかく □ ■ ◇ ◆
ほし ☆ ★
こめ ※
から 〜 ～
てん ・ … ‥ 、
まる 。 ○ ◎ ● ◯
かっこ 「」 「 」 『』 『 』 【】 【 】 （） （ ） 〔〕 ［］ ｛｝ 〈〉 《》
かぎかっこ 「」 「 」 『』 『 』
すみかっこ 【】 【 】
まるかっこ （） （ ）
ゆうびん 〒";

/// Compound forms of auxiliary verbs, counters with a particle, and colloquial
/// endings.
pub const AUXILIARIES: &'static str = "ましょう ましょう
ません ません
ました ました
ませんでした ませんでした
でしょう でしょう
でした でした
ですが ですが
ですけど ですけど
ですから ですから
ですので ですので
ですよね ですよね
ですよ ですよ
ですね ですね
ですか ですか
ますが ますが
ますか ますか
ますよ ますよ
ますね ますね
ください ください
くださる くださる
ております ております
いたします いたします
なんかいか 何回か
なんにんか 何人か
なんにちか 何日か
なんじかんか 何時間か
なんどか 何度か
なんこか 何個か
なんぼんか 何本か
なんさつか 何冊か
なんねんか 何年か
なんかげつか 何ヶ月か
いくつか いくつか
いくらか いくらか
ですし ですし
ですしね ですしね
ですしよ ですしよ
ですしよね ですしよね
ですしから ですしから
だしね だしね
だしよ だしよ
だしよね だしよね";

/// Verbs made of a noun and a form of "to do".
pub const SAHEN_COMPOUNDS: &'static str = "こうかいする 公開する 後悔する 航海する
かいしする 開始する
かいしゃする 解釈する";

/// Greetings and set phrases.
pub const FORMULAIC: &'static str = "いってきます 行ってきます
いってらっしゃい 行ってらっしゃい
おかえりなさい お帰りなさい
おやすみなさい おやすみなさい
しなければならない しなければならない
たべたい 食べたい
みたかった 見たかった
のです のです";

/// The passive and honorific auxiliary and its forms.
pub const SARERU_AUXILIARIES: &'static str = "される される
されて されて
された された
されない されない
されます されます
されました されました";

/// Verbs of the fifth class in the dictionary form, whose last character is
/// replaced by each of the tails. Weighted.
pub const GODAN_SU_VERBS: &'static str = "8500 はなす 話す
8500 だす 出す
8000 かす 貸す
8000 おす 押す
8000 けす 消す
8000 なおす 直す 治す
8000 おこす 起こす
8000 うごかす 動かす
8000 おとす 落とす
8000 わたす 渡す
8500 さがす 探す 捜す
8000 しめす 示す
8000 うつす 移す 写す 映す
8000 とおす 通す
8000 かえす 返す
8000 もどす 戻す
8000 まわす 回す
7500 ふやす 増やす
7500 へらす 減らす
8000 さす 差す 指す 刺す
7500 かくす 隠す
7500 よごす 汚す
7500 あらわす 表す 現す
7500 たす 足す
7500 いかす 生かす
7500 あます 余す
7500 うながす 促す
8000 ためす 試す
8000 のこす 残す
8000 こわす 壊す
7500 たおす 倒す
7500 ころす 殺す
7500 なくす 無くす 亡くす";

/// The tails that a verb of [`GODAN_SU_VERBS`] takes, in one line.
pub const SU_TAILS: &'static str = "した して している しています していた していない しません";

/// Particles made of two particles.
pub const COMPOUND_PARTICLES: &'static str = "には には
へは へは
にも にも
でも でも
からも からも
までも までも";

/// Compound nouns.
pub const COMPOUND_NOUNS: &'static str = "めのまえ 目の前
もものうち 桃のうち
きたいち 期待値
へいきんち 平均値
さいだいち 最大値
さいしょうち 最小値
ぜったいち 絶対値
すうち 数値
しきべつち 識別値
しきべつし 識別子
ひょうじゅんち 標準値
じっそくち 実測値
かんそくち 観測値
しょきち 初期値
こていち 固定値
けんだけ 件だけ
にんだけ 人だけ
こだけ 個だけ
ほんだけ 本だけ
だいだけ 台だけ";

/// Technical terms in katakana. Weighted.
pub const KATAKANA_TERMS: &'static str = "8500 どっかー ドッカー
9000 くらうど クラウド
7000 くーばーねてす クーバーネテス
7000 くべるねてす クベルネテス
7500 でぷろいめんと デプロイメント
8000 くらすたー クラスター
7500 みどるうぇあ ミドルウェア
8500 ふれーむわーく フレームワーク
7500 まいくろさーびす マイクロサービス
8000 ぎっとはぶ ギットハブ
8500 りびゅー レビュー
8000 でぃーぷらーにんぐ ディープラーニング
8500 くらいあんと クライアント
8000 くえりー クエリー
8000 えいぴーあい API
7500 すたーとあっぷ スタートアップ
7500 じゃば ジャバ";

/// Common words and forms of all kinds. Weighted.
pub const GENERAL_SUPPLEMENT: &'static str = "8500 かのうせい 可能性
7500 さいげんせい 再現性
7500 ざんりょう 残量
7500 きに 気に
7500 きょうどう 協働
7500 とくのう 特濃
7500 いしがま 石窯
7000 にんにくのめ にんにくの芽
7500 つくろう 作ろう
7500 とろう 取ろう
7500 のこして 残して
7500 よわく 弱く
7300 いない いない
7300 いなく いなく
8000 わら (笑)
7500 まいぐれーしょん マイグレーション
7500 いれぎゅらー イレギュラー
7500 いんすとーら インストーラ
7000 おーとちゃーじ オートチャージ
8500 あぷり アプリ
8500 すまほ スマホ
8500 れいあうと レイアウト
8000 えびでんす エビデンス
8000 りさいず リサイズ
7500 もーだる モーダル
7500 ぷろふ プロフ
7500 いんぷれ インプレ
8000 いぼのいと 揖保乃糸
8000 しゃうえっせん シャウエッセン
7500 りすぺりどん リスペリドン
7000 さるたな サルタナ
7500 せたがやく 世田谷区
7500 にっせき 日赤
8000 かんさい 関西
8500 いっぽん 一本
8000 げっしょ 月初
7500 ばくすい 爆睡
6000 さくじつ 昨日
6000 かれい 加齢
7000 あたらし 新し
7500 おいし 美味し
7000 すずし 涼し
7000 やさし 優し
7000 つよ 強
4000 いれ 淹れ
7500 おそく 遅く
7500 つよく 強く
7500 つよくて 強くて
7500 つよくない 強くない
7500 つよさ 強さ
7500 たかく 高く
7500 たかくて 高くて
7500 たかくない 高くない
7500 はやく 早く
7500 はやくて 早くて
7500 はやくない 早くない
7300 はやく 速く
7300 はやくて 速くて
7300 はやくない 速くない
7300 はやさ 速さ
7100 はやさ 早さ
7500 ひろく 広く
7500 ひろくて 広くて
7500 ひろくない 広くない
7500 ひろさ 広さ
7500 せまく 狭く
7500 せまくて 狭くて
7500 せまくない 狭くない
7500 せまさ 狭さ
7500 ながく 長く
7500 ながくて 長くて
7500 ながくない 長くない
7500 ながさ 長さ
7500 ひくく 低く
7500 ひくくて 低くて
7500 ひくくない 低くない
7500 ひくさ 低さ
7500 しろく 白く
7500 しろくて 白くて
7500 しろくない 白くない
7500 しろさ 白さ
7500 おもく 重く
7500 おもくて 重くて
7500 おもくない 重くない
7500 おもさ 重さ
7500 とおく 遠く
7500 とおくて 遠くて
7500 とおくない 遠くない
7500 とおさ 遠さ
7500 わかく 若く
7500 わかくて 若くて
7500 わかくない 若くない
7500 わかさ 若さ
7500 みじかく 短く
7500 みじかくて 短くて
7500 みじかくない 短くない
7500 みじかさ 短さ
7500 すごく 凄く
7500 すごくて 凄くて
7500 すごくない 凄くない
7500 すごさ 凄さ
7500 うれしく 嬉しく
7500 うれしくて 嬉しくて
7500 うれしくない 嬉しくない
7500 うれしさ 嬉しさ
7500 かなしく 悲しく
7500 かなしくて 悲しくて
7500 かなしくない 悲しくない
7500 かなしさ 悲しさ
7500 たのしく 楽しく
7500 たのしくて 楽しくて
7500 たのしくない 楽しくない
7500 たのしさ 楽しさ
7500 さびしく 寂しく
7500 さびしくて 寂しくて
7500 さびしくない 寂しくない
7500 さびしさ 寂しさ
7500 よろしく 宜しく
7500 ふるさ 古さ
8000 たかさ 高さ
7500 ふとさ 太さ
8000 きどく 既読
7500 おまたせ お待たせ
7000 けつりゅう 血流
7000 ぼうまんかん 膨満感
7000 けんこうこつ 肩甲骨
7000 ふかぼり 深掘り";

/// Characters for drawing boxes, all under one reading.
pub const BOX_DRAWING: &'static str = "けいせん └ ┘ ┌ ┐ ─ │ ┼ ├ ┤ ┬ ┴ ┗ ┛ ┏ ┓ ━ ┃ ╋ ┣ ┫ ┳ ┻ ┿ ┝ ┥ ┯ ┰ ┷ ┸ ╂";

} // verus!
