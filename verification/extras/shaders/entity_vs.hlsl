struct VS_IN {
    float3 pos : POSITION;
    float2 uv  : TEXCOORD0;
    float  sel : TEXCOORD1;
    float2 foot : TEXCOORD2;
};
struct VS_OUT {
    float4 pos : SV_POSITION;
    float2 uv  : TEXCOORD0;
    float  sel : TEXCOORD1;
    float2 foot : TEXCOORD2;
};

VS_OUT main(VS_IN i) {
    VS_OUT o;
    o.pos = mul(viewProj, float4(i.pos, 1.0));
    o.uv = i.uv;
    o.sel = i.sel;
    o.foot = i.foot;
    return o;
}
